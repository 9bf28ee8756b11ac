//! Members read with stable keys written back as a `<detail>` section: the
//! members under plain keys first, each as an element of its key, then the
//! members under stable keys, grouped by tag and in the order of their
//! indices, each as an element of its tag without the metadata members.
use vstd::prelude::*;
use crate::json::{JsonMap, JsonV, key_order};
use crate::stable_keys::{is_stable_key, parse_stable_key, parse_stable_key_spec, value_to_xml_element, xml_element};
use crate::text::{chars_lt, chars_of, lemma_lt_irreflexive, lemma_lt_total, lemma_lt_transitive, seq_lt, string_of};

verus! {

/// The tag and index of a stable key.
pub open spec fn parsed(k: Seq<char>) -> (Seq<char>, u32) {
    match parse_stable_key_spec(k) {
        Some(p) => p,
        None => (Seq::empty(), 0),
    }
}

/// The order of stable keys: by tag, then by index, then by key.
pub open spec fn stable_lt(a: Seq<char>, b: Seq<char>) -> bool {
    let pa = parsed(a);
    let pb = parsed(b);
    seq_lt(pa.0, pb.0) || (pa.0 == pb.0 && (pa.1 < pb.1 || (pa.1 == pb.1 && seq_lt(a, b))))
}

/// `s` lists the stable keys of `m` in the order of stable keys.
pub open spec fn is_stable_order(m: Map<Seq<char>, JsonV>, s: Seq<Seq<char>>) -> bool {
    &&& forall|i: int, j: int| 0 <= i < j < s.len() ==> stable_lt(#[trigger] s[i], #[trigger] s[j])
    &&& forall|k: Seq<char>| #[trigger] s.contains(k) <==> (m.contains_key(k) && parse_stable_key_spec(k) is Some)
}

/// The stable keys of `m` in the order of stable keys.
pub open spec fn stable_order(m: Map<Seq<char>, JsonV>) -> Seq<Seq<char>> {
    choose|s: Seq<Seq<char>>| is_stable_order(m, s)
}

/// The elements of the members under plain keys among the first `n` of
/// `ks`.
pub open spec fn direct_xml(m: Map<Seq<char>, JsonV>, ks: Seq<Seq<char>>, n: int) -> Seq<char>
    decreases n,
{
    if n <= 0 || n > ks.len() {
        Seq::empty()
    } else {
        let k = ks[n - 1];
        direct_xml(m, ks, n - 1) + if parse_stable_key_spec(k) is None {
            xml_element(k, m[k], false)
        } else {
            Seq::empty()
        }
    }
}

/// The elements of the members under the first `n` stable keys of `s`,
/// each named by its tag, without metadata.
pub open spec fn stable_xml(m: Map<Seq<char>, JsonV>, s: Seq<Seq<char>>, n: int) -> Seq<char>
    decreases n,
{
    if n <= 0 || n > s.len() {
        Seq::empty()
    } else {
        stable_xml(m, s, n - 1) + xml_element(parsed(s[n - 1]).0, m[s[n - 1]], true)
    }
}

/// The `<detail>` section that members with stable keys are written as.
pub open spec fn detail_xml_of(m: Map<Seq<char>, JsonV>) -> Seq<char> {
    let ks = key_order(m);
    let s = stable_order(m);
    seq!['<', 'd', 'e', 't', 'a', 'i', 'l', '>'] + direct_xml(m, ks, ks.len() as int) + stable_xml(m, s, s.len() as int)
        + seq!['<', '/', 'd', 'e', 't', 'a', 'i', 'l', '>']
}

/// The order of stable keys is irreflexive.
pub proof fn lemma_stable_lt_irreflexive(a: Seq<char>)
    ensures
        !stable_lt(a, a),
{
    lemma_lt_irreflexive(a);
    lemma_lt_irreflexive(parsed(a).0);
}

/// The order of stable keys is transitive.
pub proof fn lemma_stable_lt_transitive(a: Seq<char>, b: Seq<char>, c: Seq<char>)
    requires
        stable_lt(a, b),
        stable_lt(b, c),
    ensures
        stable_lt(a, c),
{
    let (pa, pb, pc) = (parsed(a), parsed(b), parsed(c));
    lemma_lt_irreflexive(pa.0);
    lemma_lt_irreflexive(pb.0);
    if seq_lt(pa.0, pb.0) && seq_lt(pb.0, pc.0) {
        lemma_lt_transitive(pa.0, pb.0, pc.0);
    }
    if pa.0 == pb.0 && pb.0 == pc.0 && pa.1 == pb.1 && pb.1 == pc.1 {
        lemma_lt_transitive(a, b, c);
    }
}

/// There is only one listing of the stable keys of a map in the order of
/// stable keys.
pub proof fn lemma_stable_order_unique(m: Map<Seq<char>, JsonV>, a: Seq<Seq<char>>, b: Seq<Seq<char>>)
    requires
        is_stable_order(m, a),
        is_stable_order(m, b),
    ensures
        a == b,
    decreases a.len(),
{
    if a.len() == 0 {
        if b.len() > 0 {
            assert(b.contains(b[0]));
            assert(a.contains(b[0]));
        }
        assert(a =~= b);
    } else {
        assert(a.contains(a[0]));
        assert(b.contains(a[0]));
        let j = choose|j: int| 0 <= j < b.len() && b[j] == a[0];
        assert(b.contains(b[0]));
        assert(a.contains(b[0]));
        let i = choose|i: int| 0 <= i < a.len() && a[i] == b[0];
        if j > 0 {
            assert(stable_lt(b[0], b[j]));
            if i > 0 {
                assert(stable_lt(a[0], a[i]));
                lemma_stable_lt_transitive(a[0], b[0], a[0]);
            }
            lemma_stable_lt_irreflexive(a[0]);
        }
        assert(a[0] == b[0]);
        let m2 = m.remove(a[0]);
        assert forall|i1: int, j1: int| 0 <= i1 < j1 < a.drop_first().len() implies stable_lt(
            #[trigger] a.drop_first()[i1],
            #[trigger] a.drop_first()[j1],
        ) by {
            assert(stable_lt(a[i1 + 1], a[j1 + 1]));
        }
        assert forall|i1: int, j1: int| 0 <= i1 < j1 < b.drop_first().len() implies stable_lt(
            #[trigger] b.drop_first()[i1],
            #[trigger] b.drop_first()[j1],
        ) by {
            assert(stable_lt(b[i1 + 1], b[j1 + 1]));
        }
        assert forall|k: Seq<char>| #[trigger] a.drop_first().contains(k) <==> (m2.contains_key(k)
            && parse_stable_key_spec(k) is Some) by {
            if m2.contains_key(k) && parse_stable_key_spec(k) is Some {
                assert(a.contains(k));
                let l = choose|l: int| 0 <= l < a.len() && a[l] == k;
                assert(a.drop_first()[l - 1] == k);
            }
            if a.drop_first().contains(k) {
                let l = choose|l: int| 0 <= l < a.drop_first().len() && a.drop_first()[l] == k;
                assert(a[l + 1] == k);
                assert(a.contains(k));
                assert(stable_lt(a[0], a[l + 1]));
                lemma_stable_lt_irreflexive(k);
            }
        }
        assert forall|k: Seq<char>| #[trigger] b.drop_first().contains(k) <==> (m2.contains_key(k)
            && parse_stable_key_spec(k) is Some) by {
            if m2.contains_key(k) && parse_stable_key_spec(k) is Some {
                assert(b.contains(k));
                let l = choose|l: int| 0 <= l < b.len() && b[l] == k;
                assert(b.drop_first()[l - 1] == k);
            }
            if b.drop_first().contains(k) {
                let l = choose|l: int| 0 <= l < b.drop_first().len() && b.drop_first()[l] == k;
                assert(b[l + 1] == k);
                assert(b.contains(k));
                assert(stable_lt(b[0], b[l + 1]));
                lemma_stable_lt_irreflexive(k);
            }
        }
        lemma_stable_order_unique(m2, a.drop_first(), b.drop_first());
        assert(a =~= seq![a[0]] + a.drop_first());
        assert(b =~= seq![b[0]] + b.drop_first());
    }
}

/// A member under a stable key, to be sorted: its tag, index and position
/// in key order.
struct SortEntry {
    tag: Vec<char>,
    index: u32,
    pos: usize,
}

/// The view of a sort entry.
spec fn entry_view(e: SortEntry) -> (Seq<char>, u32, nat) {
    (e.tag@, e.index, e.pos as nat)
}

/// The order of sort entries: by tag, then index, then position.
spec fn entry_lt(a: (Seq<char>, u32, nat), b: (Seq<char>, u32, nat)) -> bool {
    seq_lt(a.0, b.0) || (a.0 == b.0 && (a.1 < b.1 || (a.1 == b.1 && a.2 < b.2)))
}

/// Whether entry `a` comes before entry `b`.
fn entry_before(a: &SortEntry, b: &SortEntry) -> (r: bool)
    ensures
        r == entry_lt(entry_view(*a), entry_view(*b)),
{
    if chars_lt(a.tag.as_slice(), b.tag.as_slice()) {
        true
    } else if chars_lt(b.tag.as_slice(), a.tag.as_slice()) {
        proof {
            lemma_lt_irreflexive(a.tag@);
        }
        false
    } else {
        proof {
            lemma_lt_total(a.tag@, b.tag@);
        }
        a.index < b.index || (a.index == b.index && a.pos < b.pos)
    }
}

/// The entry of the member at position `i` in key order describes its key.
spec fn describes(ks: Seq<Seq<char>>, e: (Seq<char>, u32, nat)) -> bool {
    &&& e.2 < ks.len()
    &&& parse_stable_key_spec(ks[e.2 as int]) == Some((e.0, e.1))
}

/// Writes members with stable keys back as a `<detail>` section (see the
/// module documentation). Members under plain keys come in key order;
/// repeated elements of one tag come in the order of their indices, and
/// the tags in the order of strings.
pub fn convert_stable_keys_to_xml(detail_map: &JsonMap) -> (r: String)
    ensures
        r@ == detail_xml_of(detail_map@),
{
    proof {
        use_type_invariant(detail_map);
        detail_map.lemma_keys();
    }
    let ghost m = detail_map@;
    let ghost ks = detail_map.keys();
    let n = detail_map.len();
    let mut direct = String::new();
    let mut sorted: Vec<SortEntry> = Vec::new();
    let mut i: usize = 0;
    while i < n
        invariant
            n == ks.len(),
            ks == detail_map.keys(),
            m == detail_map@,
            key_order(m) == ks,
            forall|a: int, b: int| 0 <= a < b < ks.len() ==> seq_lt(#[trigger] ks[a], #[trigger] ks[b]),
            forall|a: int| 0 <= a < ks.len() ==> m.contains_key(#[trigger] ks[a]),
            i <= n,
            direct@ == direct_xml(m, ks, i as int),
            forall|a: int| 0 <= a < sorted@.len() ==> describes(ks, #[trigger] entry_view(sorted@[a])),
            forall|a: int| 0 <= a < sorted@.len() ==> #[trigger] sorted@[a].pos < i,
            forall|a: int, b: int|
                0 <= a < b < sorted@.len() ==> entry_lt(entry_view(#[trigger] sorted@[a]), entry_view(#[trigger] sorted@[b])),
            forall|p: nat|
                p < i && parse_stable_key_spec(ks[p as int]) is Some ==> exists|a: int|
                    0 <= a < sorted@.len() && #[trigger] sorted@[a].pos == p,
        decreases n - i,
    {
        let (k, v) = detail_map.entry_at(i);
        let mut added = false;
        if is_stable_key(k.as_str()) {
            match parse_stable_key(k.as_str()) {
                Some((tag, index)) => {
                    let e = SortEntry { tag: chars_of(tag.as_str()), index, pos: i };
                    let mut p: usize = 0;
                    while p < sorted.len() && entry_before(&sorted[p], &e)
                        invariant
                            p <= sorted@.len(),
                            forall|a: int| 0 <= a < p ==> entry_lt(entry_view(#[trigger] sorted@[a]), entry_view(e)),
                        decreases sorted@.len() - p,
                    {
                        p = p + 1;
                    }
                    proof {
                        if p < sorted@.len() {
                            let q = entry_view(sorted@[p as int]);
                            let ev = entry_view(e);
                            lemma_lt_total(q.0, ev.0);
                            assert(entry_lt(ev, q));
                            assert forall|a: int| p <= a < sorted@.len() implies entry_lt(
                                ev,
                                entry_view(#[trigger] sorted@[a]),
                            ) by {
                                if a > p {
                                    let qa = entry_view(sorted@[a]);
                                    assert(entry_lt(q, qa));
                                    if seq_lt(ev.0, q.0) && seq_lt(q.0, qa.0) {
                                        lemma_lt_transitive(ev.0, q.0, qa.0);
                                    }
                                }
                            }
                        }
                    }
                    let ghost before = sorted@;
                    sorted.insert(p, e);
                    proof {
                        assert forall|a: int, b: int| 0 <= a < b < sorted@.len() implies entry_lt(
                            entry_view(#[trigger] sorted@[a]),
                            entry_view(#[trigger] sorted@[b]),
                        ) by {
                            let ea = entry_view(sorted@[a]);
                            let eb = entry_view(sorted@[b]);
                            if a < p && b > p {
                                let ev = entry_view(sorted@[p as int]);
                                assert(entry_lt(ea, ev));
                                assert(entry_lt(ev, eb));
                                if seq_lt(ea.0, ev.0) && seq_lt(ev.0, eb.0) {
                                    lemma_lt_transitive(ea.0, ev.0, eb.0);
                                }
                            } else if a < p && b < p {
                                assert(sorted@[a] == before[a] && sorted@[b] == before[b]);
                            } else if a > p && b > p {
                                assert(sorted@[a] == before[a - 1] && sorted@[b] == before[b - 1]);
                            } else if a < p {
                                assert(sorted@[a] == before[a]);
                            } else {
                                assert(sorted@[b] == before[b - 1]);
                            }
                        }
                        assert forall|q: nat| q < i + 1 && parse_stable_key_spec(ks[q as int]) is Some implies exists|a: int|
                            0 <= a < sorted@.len() && #[trigger] sorted@[a].pos == q by {
                            if q == i {
                                assert(sorted@[p as int].pos == q);
                            } else {
                                let a0 = choose|a: int| 0 <= a < before.len() && #[trigger] before[a].pos == q;
                                if a0 < p {
                                    assert(sorted@[a0].pos == q);
                                } else {
                                    assert(sorted@[a0 + 1].pos == q);
                                }
                            }
                        }
                        assert forall|a: int| 0 <= a < sorted@.len() implies describes(
                            ks,
                            #[trigger] entry_view(sorted@[a]),
                        ) by {
                            if a < p {
                                assert(sorted@[a] == before[a]);
                            } else if a > p {
                                assert(sorted@[a] == before[a - 1]);
                            }
                        }
                        assert forall|a: int| 0 <= a < sorted@.len() implies #[trigger] sorted@[a].pos < i + 1 by {
                            if a < p {
                                assert(sorted@[a] == before[a]);
                            } else if a > p {
                                assert(sorted@[a] == before[a - 1]);
                            }
                        }
                    }
                    added = true;
                },
                None => {},
            }
        } else {
            let x = value_to_xml_element(k.as_str(), v, false);
            direct.append(x.as_str());
        }
        proof {
            assert(direct@ =~= direct_xml(m, ks, i + 1));
            if !added {
                assert forall|q: nat| q < i + 1 && parse_stable_key_spec(ks[q as int]) is Some implies exists|a: int|
                    0 <= a < sorted@.len() && #[trigger] sorted@[a].pos == q by {
                    if q == i {
                        assert(false);
                    }
                }
            }
        }
        i = i + 1;
    }
    let ghost s = sorted@.map_values(|e: SortEntry| ks[e.pos as int]);
    proof {
        assert forall|a: int, b: int| 0 <= a < b < s.len() implies stable_lt(#[trigger] s[a], #[trigger] s[b]) by {
            let ea = entry_view(sorted@[a]);
            let eb = entry_view(sorted@[b]);
            assert(entry_lt(ea, eb));
            assert(describes(ks, ea));
            assert(describes(ks, eb));
            lemma_lt_irreflexive(ea.0);
            if ea.0 == eb.0 && ea.1 == eb.1 {
                assert(ea.2 < eb.2);
                assert(seq_lt(ks[ea.2 as int], ks[eb.2 as int]));
            }
        }
        assert forall|k: Seq<char>| #[trigger] s.contains(k) <==> (m.contains_key(k) && parse_stable_key_spec(k) is Some) by {
            if s.contains(k) {
                let a = choose|a: int| 0 <= a < s.len() && s[a] == k;
                assert(describes(ks, entry_view(sorted@[a])));
            }
            if m.contains_key(k) && parse_stable_key_spec(k) is Some {
                assert(ks.contains(k));
                let q = choose|q: int| 0 <= q < ks.len() && ks[q] == k;
                let a = choose|a: int| 0 <= a < sorted@.len() && #[trigger] sorted@[a].pos == q as nat;
                assert(s[a] == k);
            }
        }
        assert(is_stable_order(m, s));
        lemma_stable_order_unique(m, s, stable_order(m));
    }
    let mut stable = String::new();
    let mut j: usize = 0;
    while j < sorted.len()
        invariant
            ks == detail_map.keys(),
            m == detail_map@,
            s == sorted@.map_values(|e: SortEntry| ks[e.pos as int]),
            forall|a: int| 0 <= a < sorted@.len() ==> describes(ks, #[trigger] entry_view(sorted@[a])),
            forall|a: int| 0 <= a < ks.len() ==> m.contains_key(#[trigger] ks[a]),
            j <= sorted@.len(),
            stable@ == stable_xml(m, s, j as int),
        decreases sorted@.len() - j,
    {
        let ghost ea = entry_view(sorted@[j as int]);
        assert(describes(ks, ea));
        let (_, v) = detail_map.entry_at(sorted[j].pos);
        let tag = crate::text::string_from_chars(sorted[j].tag.as_slice());
        let x = value_to_xml_element(tag.as_str(), v, true);
        stable.append(x.as_str());
        assert(stable@ =~= stable_xml(m, s, j + 1));
        j = j + 1;
    }
    let mut xml = string_of("<detail>");
    xml.append(direct.as_str());
    xml.append(stable.as_str());
    xml.append("</detail>");
    proof {
        reveal_strlit("<detail>");
        reveal_strlit("</detail>");
        assert(xml@ =~= detail_xml_of(m));
    }
    xml
}

} // verus!

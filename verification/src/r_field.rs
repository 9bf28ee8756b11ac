//! Flattening of the `r` field (the detail elements of a CoT event) into
//! individual `r_*` fields for DQL, and its reconstruction: `r.takv.os`
//! becomes `r_takv_os`, a plain `r.x` becomes `r_x`.
use vstd::prelude::*;
use crate::json::{JsonMap, JsonValue, JsonV};
use crate::text::{chars_of, string_from_chars, seq_lt, is_prefix, lemma_lt_irreflexive, lemma_lt_transitive};

verus! {

/// The prefix of every flattened key: `r_`.
pub open spec fn r_prefix() -> Seq<char> {
    seq!['r', '_']
}

/// The flattened key of attribute `a` of detail element `t`: `r_t_a`.
pub open spec fn attr_key(t: Seq<char>, a: Seq<char>) -> Seq<char> {
    r_prefix() + t + seq!['_'] + a
}

/// The flattened key of a detail element `t` with a plain value: `r_t`.
pub open spec fn simple_key(t: Seq<char>) -> Seq<char> {
    r_prefix() + t
}

/// `(k, v)` is one of the fields that flattening makes of element `t` of
/// `r`: an attribute of an object value, or the plain value itself.
pub open spec fn produced_by(r: Map<Seq<char>, JsonV>, t: Seq<char>, k: Seq<char>, v: JsonV) -> bool {
    &&& r.contains_key(t)
    &&& match r[t] {
        JsonV::Object(o) => exists|a: Seq<char>|
            #[trigger] o.contains_key(a) && k == attr_key(t, a) && v == o[a],
        _ => k == simple_key(t) && v == r[t],
    }
}

/// An attribute of an object element is produced under its `r_t_a` key.
proof fn lemma_produced_attr(
    r: Map<Seq<char>, JsonV>,
    t: Seq<char>,
    o: Map<Seq<char>, JsonV>,
    a: Seq<char>,
    k: Seq<char>,
    v: JsonV,
)
    requires
        r.contains_key(t),
        r[t] == JsonV::Object(o),
        o.contains_key(a),
        k == attr_key(t, a),
        v == o[a],
    ensures
        produced_by(r, t, k, v),
{
    assert(r[t] is Object);
    let o2 = r[t]->Object_0;
    assert(o2 == o);
    assert(o2.contains_key(a));
    assert(exists|a2: Seq<char>| #[trigger] o2.contains_key(a2) && k == attr_key(t, a2) && v == o2[a2]);
}

/// `f` is a flattening of `r`: every field of `f` is made from some element
/// of `r`, and every field that an element of `r` makes is in `f`. (Where
/// two elements make the same key, one of them gives its value.)
pub open spec fn is_flattening(r: Map<Seq<char>, JsonV>, f: Map<Seq<char>, JsonV>) -> bool {
    &&& forall|k: Seq<char>| #[trigger] f.contains_key(k) ==> exists|t: Seq<char>| produced_by(r, t, k, f[k])
    &&& forall|t: Seq<char>, k: Seq<char>, v: JsonV| #[trigger] produced_by(r, t, k, v) ==> f.contains_key(k)
}

/// Flattening restricted to the elements whose keys are in `ts`.
spec fn flattened_over(r: Map<Seq<char>, JsonV>, ts: Seq<Seq<char>>, f: Map<Seq<char>, JsonV>) -> bool {
    &&& forall|k: Seq<char>|
        #[trigger] f.contains_key(k) ==> exists|t: Seq<char>| ts.contains(t) && produced_by(r, t, k, f[k])
    &&& forall|t: Seq<char>, k: Seq<char>, v: JsonV|
        ts.contains(t) && #[trigger] produced_by(r, t, k, v) ==> f.contains_key(k)
}

/// Builds `r_t_a`.
fn make_attr_key(t: &String, a: &String) -> (k: String)
    ensures
        k@ == attr_key(t@, a@),
{
    let mut k = String::new();
    k.append("r_");
    k.append(t.as_str());
    k.append("_");
    k.append(a.as_str());
    proof {
        reveal_strlit("r_");
        reveal_strlit("_");
        assert(k@ =~= attr_key(t@, a@));
    }
    k
}

/// Builds `r_t`.
fn make_simple_key(t: &String) -> (k: String)
    ensures
        k@ == simple_key(t@),
{
    let mut k = String::new();
    k.append("r_");
    k.append(t.as_str());
    proof {
        reveal_strlit("r_");
        assert(k@ =~= simple_key(t@));
    }
    k
}

/// Flattens the `r` map into `r_*` fields: the attributes of an object
/// value become `r_<element>_<attribute>`, a plain value becomes
/// `r_<element>`.
pub fn flatten_r_field(r_map: &JsonMap) -> (f: JsonMap)
    ensures
        is_flattening(r_map@, f@),
{
    proof {
        use_type_invariant(r_map);
        r_map.lemma_keys();
    }
    let mut f = JsonMap::new();
    let n = r_map.len();
    let mut i: usize = 0;
    while i < n
        invariant
            n == r_map.keys().len(),
            i <= n,
            forall|j: int| 0 <= j < n ==> r_map@.contains_key(#[trigger] r_map.keys()[j]),
            flattened_over(r_map@, r_map.keys().take(i as int), f@),
        decreases n - i,
    {
        let (t, v) = r_map.entry_at(i);
        let ghost ts = r_map.keys().take(i as int);
        let ghost ts1 = r_map.keys().take(i + 1);
        assert(ts1 =~= ts.push(t@));
        match v {
            JsonValue::Object(o) => {
                proof {
                    use_type_invariant(o);
                    o.lemma_keys();
                }
                let m = o.len();
                let mut j: usize = 0;
                while j < m
                    invariant
                        m == o.keys().len(),
                        j <= m,
                        ts1 == ts.push(t@),
                        r_map@.contains_key(t@),
                        r_map@[t@] == JsonV::Object(o@),
                        forall|l: int| 0 <= l < m ==> o@.contains_key(#[trigger] o.keys()[l]),
                        forall|k: Seq<char>|
                            #[trigger] f@.contains_key(k) ==> (exists|t2: Seq<char>|
                                ts.contains(t2) && produced_by(r_map@, t2, k, f@[k])) || (exists|
                                a: Seq<char>,
                            |
                                o.keys().take(j as int).contains(a) && k == attr_key(t@, a) && f@[k]
                                    == o@[a]),
                        forall|t2: Seq<char>, k: Seq<char>, w: JsonV|
                            ts.contains(t2) && #[trigger] produced_by(r_map@, t2, k, w)
                                ==> f@.contains_key(k),
                        forall|l: int| 0 <= l < j ==> f@.contains_key(attr_key(t@, #[trigger] o.keys()[l])),
                    decreases m - j,
                {
                    let (a, av) = o.entry_at(j);
                    let k = make_attr_key(t, a);
                    let ghost kv = k@;
                    let ghost old_f = f@;
                    f.insert(k, av.copy());
                    proof {
                        assert(o.keys().take(j + 1) =~= o.keys().take(j as int).push(a@));
                        assert forall|k2: Seq<char>| #[trigger] f@.contains_key(k2) implies (exists|
                            t2: Seq<char>,
                        | ts.contains(t2) && produced_by(r_map@, t2, k2, f@[k2])) || (exists|
                            a2: Seq<char>,
                        |
                            o.keys().take(j + 1).contains(a2) && k2 == attr_key(t@, a2) && f@[k2]
                                == o@[a2]) by {
                            if k2 == kv {
                                assert(o.keys().take(j + 1)[j as int] == a@);
                            } else {
                                assert(old_f.contains_key(k2));
                                if exists|a2: Seq<char>|
                                    o.keys().take(j as int).contains(a2) && k2 == attr_key(t@, a2)
                                        && old_f[k2] == o@[a2] {
                                    let a2 = choose|a2: Seq<char>|
                                        o.keys().take(j as int).contains(a2) && k2 == attr_key(
                                            t@,
                                            a2,
                                        ) && old_f[k2] == o@[a2];
                                    let l = choose|l: int|
                                        0 <= l < j && o.keys().take(j as int)[l] == a2;
                                    assert(o.keys().take(j + 1)[l] == a2);
                                }
                            }
                        }
                        assert forall|l: int| 0 <= l < j + 1 implies f@.contains_key(
                            attr_key(t@, #[trigger] o.keys()[l]),
                        ) by {
                            if l < j {
                                assert(old_f.contains_key(attr_key(t@, o.keys()[l])));
                            }
                        }
                    }
                    j = j + 1;
                }
                proof {
                    assert(o.keys().take(m as int) =~= o.keys());
                    assert forall|k: Seq<char>| #[trigger] f@.contains_key(k) implies exists|
                        t2: Seq<char>,
                    | ts1.contains(t2) && produced_by(r_map@, t2, k, f@[k]) by {
                        if exists|t2: Seq<char>| ts.contains(t2) && produced_by(r_map@, t2, k, f@[k]) {
                            let t2 = choose|t2: Seq<char>|
                                ts.contains(t2) && produced_by(r_map@, t2, k, f@[k]);
                            let l = choose|l: int| 0 <= l < ts.len() && ts[l] == t2;
                            assert(ts1[l] == t2);
                            assert(ts1.contains(t2));
                        } else {
                            let a = choose|a: Seq<char>|
                                o.keys().contains(a) && k == attr_key(t@, a) && f@[k] == o@[a];
                            let l = choose|l: int| 0 <= l < o.keys().len() && o.keys()[l] == a;
                            assert(o@.contains_key(o.keys()[l]));
                            assert(o@.contains_key(a) && k == attr_key(t@, a) && f@[k] == o@[a]);
                            assert(r_map@[t@] == JsonV::Object(o@));
                            assert(r_map@.contains_key(t@));
                            lemma_produced_attr(r_map@, t@, o@, a, k, f@[k]);
                            assert(ts1[ts.len() as int] == t@);
                            assert(ts1.contains(t@));
                        }
                    }
                    assert forall|t2: Seq<char>, k: Seq<char>, w: JsonV|
                        ts1.contains(t2) && #[trigger] produced_by(r_map@, t2, k, w) implies f@.contains_key(
                        k,
                    ) by {
                        if !ts.contains(t2) {
                            let l = choose|l: int| 0 <= l < ts1.len() && ts1[l] == t2;
                            assert(l == ts.len());
                            assert(t2 == t@);
                            let a = choose|a: Seq<char>|
                                #[trigger] o@.contains_key(a) && k == attr_key(t@, a) && w == o@[a];
                            o.lemma_keys();
                            let l2 = choose|l2: int| 0 <= l2 < o.keys().len() && o.keys()[l2] == a;
                            assert(f@.contains_key(attr_key(t@, o.keys()[l2])));
                        }
                    }
                }
            },
            _ => {
                let k = make_simple_key(t);
                let ghost kv = k@;
                let ghost old_f = f@;
                f.insert(k, v.copy());
                proof {
                    assert(r_map@[t@] !is Object);
                    assert(produced_by(r_map@, t@, kv, r_map@[t@]));
                    assert forall|k2: Seq<char>| #[trigger] f@.contains_key(k2) implies exists|
                        t2: Seq<char>,
                    | ts1.contains(t2) && produced_by(r_map@, t2, k2, f@[k2]) by {
                        if k2 == kv {
                            assert(ts1[ts.len() as int] == t@);
                            assert(ts1.contains(t@));
                            assert(produced_by(r_map@, t@, k2, f@[k2]));
                        } else {
                            assert(old_f.contains_key(k2));
                            let t2 = choose|t2: Seq<char>|
                                ts.contains(t2) && produced_by(r_map@, t2, k2, old_f[k2]);
                            let l = choose|l: int| 0 <= l < ts.len() && ts[l] == t2;
                            assert(ts1[l] == t2);
                            assert(ts1.contains(t2));
                            assert(produced_by(r_map@, t2, k2, f@[k2]));
                        }
                    }
                    assert forall|t2: Seq<char>, k2: Seq<char>, w: JsonV|
                        ts1.contains(t2) && #[trigger] produced_by(r_map@, t2, k2, w) implies f@.contains_key(
                        k2,
                    ) by {
                        if !ts.contains(t2) {
                            let l = choose|l: int| 0 <= l < ts1.len() && ts1[l] == t2;
                            assert(l == ts.len());
                        } else {
                            assert(old_f.contains_key(k2));
                        }
                    }
                }
            },
        }
        i = i + 1;
    }
    proof {
        assert(r_map.keys().take(n as int) =~= r_map.keys());
        assert forall|t: Seq<char>, k: Seq<char>, v: JsonV| #[trigger] produced_by(r_map@, t, k, v) implies f@.contains_key(
            k,
        ) by {
            assert(r_map.keys().contains(t));
        }
    }
    f
}

/// Flattens `r_field` into `document_map`: its `r` key is removed and the
/// `r_*` fields of `r_field` are added (replacing keys of the same name).
pub fn flatten_document_r_field(document_map: &mut JsonMap, r_field: &JsonMap)
    ensures
        exists|f: Map<Seq<char>, JsonV>|
            is_flattening(r_field@, f) && final(document_map)@ == old(document_map)@.remove(
                seq!['r'],
            ).union_prefer_right(f),
{
    let ghost before = document_map@;
    let _ = document_map.remove("r");
    proof {
        reveal_strlit("r");
        assert("r"@ =~= seq!['r']);
        assert(document_map@ == before.remove(seq!['r']));
    }
    let f = flatten_r_field(r_field);
    let ghost base = document_map@;
    proof {
        use_type_invariant(&f);
        f.lemma_keys();
        assert forall|j: int, l: int| 0 <= j < l < f.keys().len() implies f.keys()[j] != f.keys()[l] by {
            assert(seq_lt(f.keys()[j], f.keys()[l]));
            lemma_lt_irreflexive(f.keys()[j]);
        }
    }
    let n = f.len();
    let mut i: usize = 0;
    while i < n
        invariant
            n == f.keys().len(),
            i <= n,
            forall|j: int| 0 <= j < n ==> f@.contains_key(#[trigger] f.keys()[j]),
            forall|j: int, l: int| 0 <= j < l < n ==> f.keys()[j] != f.keys()[l],
            forall|x: Seq<char>|
                #[trigger] document_map@.contains_key(x) <==> base.contains_key(x) || f.keys().take(
                    i as int,
                ).contains(x),
            forall|x: Seq<char>|
                #[trigger] document_map@.contains_key(x) ==> document_map@[x] == if f.keys().take(
                    i as int,
                ).contains(x) {
                    f@[x]
                } else {
                    base[x]
                },
        decreases n - i,
    {
        let (k, v) = f.entry_at(i);
        let ghost ks = f.keys().take(i as int);
        let ghost ks1 = f.keys().take(i + 1);
        document_map.insert(copy_key(k), v.copy());
        proof {
            assert(ks1 =~= ks.push(k@));
            assert forall|x: Seq<char>| #[trigger] document_map@.contains_key(x) <==> base.contains_key(x)
                || ks1.contains(x) by {
                if x == k@ {
                    assert(ks1[ks.len() as int] == x);
                }
                if ks1.contains(x) && x != k@ {
                    let l = choose|l: int| 0 <= l < ks1.len() && ks1[l] == x;
                    assert(ks[l] == x);
                }
                if ks.contains(x) {
                    let l = choose|l: int| 0 <= l < ks.len() && ks[l] == x;
                    assert(ks1[l] == x);
                }
            }
            assert forall|x: Seq<char>| #[trigger] document_map@.contains_key(x) implies document_map@[x]
                == if ks1.contains(x) {
                f@[x]
            } else {
                base[x]
            } by {
                if x == k@ {
                    assert(ks1[ks.len() as int] == x);
                } else {
                    if ks1.contains(x) {
                        let l = choose|l: int| 0 <= l < ks1.len() && ks1[l] == x;
                        assert(ks[l] == x);
                    }
                    if ks.contains(x) {
                        let l = choose|l: int| 0 <= l < ks.len() && ks[l] == x;
                        assert(ks1[l] == x);
                    }
                }
            }
        }
        i = i + 1;
    }
    proof {
        assert(f.keys().take(n as int) =~= f.keys());
        assert(document_map@ =~= base.union_prefer_right(f@));
        assert(is_flattening(r_field@, f@));
        assert(base == old(document_map)@.remove(seq!['r']));
        assert(is_flattening(r_field@, f@) && document_map@ == old(document_map)@.remove(
            seq!['r'],
        ).union_prefer_right(f@));
    }
}

fn copy_key(k: &String) -> (r: String)
    ensures
        r@ == k@,
{
    k.clone()
}

/// The position of the last `_` in `s`, if any.
pub open spec fn last_underscore(s: Seq<char>) -> Option<int>
    decreases s.len(),
{
    if s.len() == 0 {
        None
    } else if s.last() == '_' {
        Some(s.len() - 1)
    } else {
        last_underscore(s.drop_last())
    }
}

/// `s` holds no `_`.
pub open spec fn no_underscore(s: Seq<char>) -> bool {
    forall|i: int| 0 <= i < s.len() ==> #[trigger] s[i] != '_'
}

/// How reconstruction reads a key: not an `r_` field (`None`); an
/// attribute `(t, Some(a))` when the text after `r_` splits at its last `_`
/// into two non-empty parts; otherwise a plain element `(t, None)` named by
/// the whole text after `r_`.
pub open spec fn read_key(k: Seq<char>) -> Option<(Seq<char>, Option<Seq<char>>)> {
    if is_prefix(r_prefix(), k) {
        let rest = k.skip(2);
        match last_underscore(rest) {
            Some(p) => if p > 0 && p + 1 < rest.len() {
                Some((rest.take(p), Some(rest.skip(p + 1))))
            } else {
                Some((rest, None))
            },
            None => Some((rest, None)),
        }
    } else {
        None
    }
}

/// The plain value that the fields `f` give element `t`, if any.
pub open spec fn plain_value(f: Map<Seq<char>, JsonV>, t: Seq<char>) -> Option<JsonV> {
    if f.contains_key(simple_key(t)) && read_key(simple_key(t)) == Some((t, None::<Seq<char>>)) {
        Some(f[simple_key(t)])
    } else {
        None
    }
}

/// The attributes that the fields `f` give element `t`.
pub open spec fn attr_values(f: Map<Seq<char>, JsonV>, t: Seq<char>) -> Map<Seq<char>, JsonV> {
    Map::new(
        |a: Seq<char>|
            f.contains_key(attr_key(t, a)) && read_key(attr_key(t, a)) == Some((t, Some(a))),
        |a: Seq<char>| f[attr_key(t, a)],
    )
}

/// The fields `f` give element `t` a value.
pub open spec fn has_element(f: Map<Seq<char>, JsonV>, t: Seq<char>) -> bool {
    plain_value(f, t) is Some || exists|a: Seq<char>| #[trigger] attr_values(f, t).contains_key(a)
}

/// The value that the fields `f` give element `t`: a plain value wins over
/// attributes, except that attributes are added to a plain object value.
pub open spec fn element_value(f: Map<Seq<char>, JsonV>, t: Seq<char>) -> JsonV {
    match plain_value(f, t) {
        Some(JsonV::Object(o)) => JsonV::Object(o.union_prefer_right(attr_values(f, t))),
        Some(v) => v,
        None => JsonV::Object(attr_values(f, t)),
    }
}

/// `r` is the `r` map that the fields `f` are read back into.
pub open spec fn is_unflattening(f: Map<Seq<char>, JsonV>, r: Map<Seq<char>, JsonV>) -> bool {
    &&& forall|t: Seq<char>| #[trigger] r.contains_key(t) <==> has_element(f, t)
    &&& forall|t: Seq<char>| #[trigger] r.contains_key(t) ==> r[t] == element_value(f, t)
}

/// The effect of reading back field `(k, v)` into `r`.
pub open spec fn unflatten_step(r: Map<Seq<char>, JsonV>, k: Seq<char>, v: JsonV) -> Map<Seq<char>, JsonV> {
    match read_key(k) {
        Some((t, Some(a))) => if r.contains_key(t) {
            match r[t] {
                JsonV::Object(o) => r.insert(t, JsonV::Object(o.insert(a, v))),
                _ => r,
            }
        } else {
            r.insert(t, JsonV::Object(Map::empty().insert(a, v)))
        },
        Some((t, None)) => r.insert(t, v),
        None => r,
    }
}

proof fn lemma_last_underscore(s: Seq<char>)
    ensures
        last_underscore(s) matches Some(p) ==> 0 <= p < s.len() && s[p] == '_' && no_underscore(
            s.skip(p + 1),
        ),
        last_underscore(s) is None ==> no_underscore(s),
    decreases s.len(),
{
    if s.len() > 0 {
        lemma_last_underscore(s.drop_last());
        if s.last() != '_' {
            if let Some(p) = last_underscore(s.drop_last()) {
                assert forall|i: int| 0 <= i < s.skip(p + 1).len() implies #[trigger] s.skip(p + 1)[i] != '_' by {
                    if i < s.skip(p + 1).len() - 1 {
                        assert(s.skip(p + 1)[i] == s.drop_last().skip(p + 1)[i]);
                    }
                }
            } else {
                assert forall|i: int| 0 <= i < s.len() implies #[trigger] s[i] != '_' by {
                    if i < s.len() - 1 {
                        assert(s[i] == s.drop_last()[i]);
                    }
                }
            }
        } else {
            assert(s.skip(s.len() as int) =~= Seq::<char>::empty());
        }
    }
}

proof fn lemma_last_underscore_of(t: Seq<char>, a: Seq<char>)
    requires
        no_underscore(a),
    ensures
        last_underscore(t + seq!['_'] + a) == Some(t.len() as int),
    decreases a.len(),
{
    let s = t + seq!['_'] + a;
    if a.len() == 0 {
        assert(s.last() == '_');
    } else {
        assert(s.drop_last() =~= t + seq!['_'] + a.drop_last());
        lemma_last_underscore_of(t, a.drop_last());
        assert(s.last() == a.last());
    }
}

proof fn lemma_no_underscore_none(t: Seq<char>)
    requires
        no_underscore(t),
    ensures
        last_underscore(t) is None,
    decreases t.len(),
{
    if t.len() > 0 {
        assert(no_underscore(t.drop_last()));
        lemma_no_underscore_none(t.drop_last());
    }
}

/// A key read as an attribute is the attribute key it was made as.
proof fn lemma_read_attr(k: Seq<char>)
    ensures
        read_key(k) matches Some((t, Some(a))) ==> k == attr_key(t, a),
        read_key(k) matches Some((t, None)) ==> k == simple_key(t),
{
    if is_prefix(r_prefix(), k) {
        let rest = k.skip(2);
        lemma_last_underscore(rest);
        assert(k =~= r_prefix() + rest);
        if let Some(p) = last_underscore(rest) {
            if p > 0 && p + 1 < rest.len() {
                assert(rest =~= rest.take(p) + seq!['_'] + rest.skip(p + 1));
            }
        }
    }
}

/// Attribute keys of non-empty elements and attributes without `_` read back.
pub proof fn lemma_read_attr_key(t: Seq<char>, a: Seq<char>)
    requires
        t.len() > 0,
        a.len() > 0,
        no_underscore(a),
    ensures
        read_key(attr_key(t, a)) == Some((t, Some(a))),
{
    let k = attr_key(t, a);
    assert(k.subrange(0, 2) =~= r_prefix());
    let rest = k.skip(2);
    assert(rest =~= t + seq!['_'] + a);
    lemma_last_underscore_of(t, a);
    assert(rest.take(t.len() as int) =~= t);
    assert(rest.skip(t.len() as int + 1) =~= a);
}

/// Plain keys of elements without `_` read back.
pub proof fn lemma_read_simple_key(t: Seq<char>)
    requires
        no_underscore(t),
    ensures
        read_key(simple_key(t)) == Some((t, None::<Seq<char>>)),
{
    let k = simple_key(t);
    assert(k.subrange(0, 2) =~= r_prefix());
    assert(k.skip(2) =~= t);
    lemma_no_underscore_none(t);
}

/// A proper prefix comes before the longer string.
proof fn lemma_prefix_lt(p: Seq<char>, s: Seq<char>)
    requires
        is_prefix(p, s),
        p.len() < s.len(),
    ensures
        seq_lt(p, s),
    decreases p.len(),
{
    if p.len() > 0 {
        assert(p[0] == s.subrange(0, p.len() as int)[0]);
        assert(is_prefix(p.drop_first(), s.drop_first())) by {
            assert(s.drop_first().subrange(0, p.len() - 1) =~= p.drop_first());
        }
        lemma_prefix_lt(p.drop_first(), s.drop_first());
    }
}

/// One field read back keeps `r` the reconstruction of the fields read so
/// far, when fields are read in ascending key order.
proof fn lemma_unflatten_step(
    g: Map<Seq<char>, JsonV>,
    r: Map<Seq<char>, JsonV>,
    k: Seq<char>,
    v: JsonV,
)
    requires
        is_unflattening(g, r),
        !g.contains_key(k),
        forall|x: Seq<char>| #[trigger] g.contains_key(x) ==> seq_lt(x, k),
    ensures
        is_unflattening(g.insert(k, v), unflatten_step(r, k, v)),
{
    lemma_read_attr(k);
    match read_key(k) {
        Some((t, Some(a))) => lemma_step_attr(g, r, k, v, t, a),
        Some((t, None)) => lemma_step_plain(g, r, k, v, t),
        None => lemma_step_other(g, r, k, v),
    }
}

#[verifier::rlimit(50)]
proof fn lemma_step_attr(
    g: Map<Seq<char>, JsonV>,
    r: Map<Seq<char>, JsonV>,
    k: Seq<char>,
    v: JsonV,
    t: Seq<char>,
    a: Seq<char>,
)
    requires
        is_unflattening(g, r),
        !g.contains_key(k),
        forall|x: Seq<char>| #[trigger] g.contains_key(x) ==> seq_lt(x, k),
        read_key(k) == Some((t, Some(a))),
        k == attr_key(t, a),
    ensures
        is_unflattening(g.insert(k, v), unflatten_step(r, k, v)),
{
    let g2 = g.insert(k, v);
    let r2 = unflatten_step(r, k, v);
            assert forall|t2: Seq<char>| t2 != t implies plain_value(g2, t2) == plain_value(g, t2)
                && attr_values(g2, t2) =~= attr_values(g, t2) by {
                assert forall|a2: Seq<char>| #[trigger] attr_values(g2, t2).contains_key(a2)
                    <==> attr_values(g, t2).contains_key(a2) by {
                    if attr_key(t2, a2) == k {
                    }
                }
            }
            assert(plain_value(g2, t) == plain_value(g, t));
            assert(attr_values(g2, t) =~= attr_values(g, t).insert(a, v)) by {
                assert forall|a2: Seq<char>| #[trigger] attr_values(g2, t).contains_key(a2)
                    <==> attr_values(g, t).insert(a, v).contains_key(a2) by {
                    if attr_key(t, a2) == k {
                    }
                }
            }
            assert forall|t2: Seq<char>| #[trigger] r2.contains_key(t2) <==> has_element(g2, t2) by {
                if t2 == t {
                    assert(attr_values(g2, t).contains_key(a));
                } else {
                    assert(attr_values(g2, t2) =~= attr_values(g, t2));
                    if has_element(g2, t2) && plain_value(g2, t2) is None {
                        let a2 = choose|a2: Seq<char>| #[trigger] attr_values(g2, t2).contains_key(a2);
                        assert(attr_values(g, t2).contains_key(a2));
                    }
                    if has_element(g, t2) && plain_value(g, t2) is None {
                        let a2 = choose|a2: Seq<char>| #[trigger] attr_values(g, t2).contains_key(a2);
                        assert(attr_values(g2, t2).contains_key(a2));
                    }
                }
            }
            assert forall|t2: Seq<char>| #[trigger] r2.contains_key(t2) implies r2[t2] == element_value(
                g2,
                t2,
            ) by {
                if t2 == t {
                    match plain_value(g, t) {
                        Some(JsonV::Object(o)) => {
                            assert(o.union_prefer_right(attr_values(g, t)).insert(a, v) =~= o.union_prefer_right(
                                attr_values(g, t).insert(a, v),
                            ));
                        },
                        Some(w) => {
                        },
                        None => {
                            if r.contains_key(t) {
                                assert(r[t] == JsonV::Object(attr_values(g, t)));
                            } else {
                                assert(!has_element(g, t));
                                assert(attr_values(g, t) =~= Map::<Seq<char>, JsonV>::empty()) by {
                                    assert forall|a2: Seq<char>| !#[trigger] attr_values(g, t).contains_key(a2) by {
                                    }
                                }
                            }
                        },
                    }
                } else {
                    assert(attr_values(g2, t2) =~= attr_values(g, t2));
                }
            }
        }

#[verifier::rlimit(50)]
proof fn lemma_step_plain(
    g: Map<Seq<char>, JsonV>,
    r: Map<Seq<char>, JsonV>,
    k: Seq<char>,
    v: JsonV,
    t: Seq<char>,
)
    requires
        is_unflattening(g, r),
        !g.contains_key(k),
        forall|x: Seq<char>| #[trigger] g.contains_key(x) ==> seq_lt(x, k),
        read_key(k) == Some((t, None::<Seq<char>>)),
        k == simple_key(t),
    ensures
        is_unflattening(g.insert(k, v), unflatten_step(r, k, v)),
{
    let g2 = g.insert(k, v);
    let r2 = unflatten_step(r, k, v);
            assert(attr_values(g, t) =~= Map::<Seq<char>, JsonV>::empty()) by {
                assert forall|a2: Seq<char>| !#[trigger] attr_values(g, t).contains_key(a2) by {
                    if attr_values(g, t).contains_key(a2) {
                        let x = attr_key(t, a2);
                        assert(g.contains_key(x));
                        assert(seq_lt(x, k));
                        assert(is_prefix(k, x)) by {
                            assert(x.subrange(0, k.len() as int) =~= k);
                        }
                        lemma_prefix_lt(k, x);
                        lemma_lt_transitive(x, k, x);
                        lemma_lt_irreflexive(x);
                    }
                }
            }
            assert(attr_values(g2, t) =~= attr_values(g, t)) by {
                assert forall|a2: Seq<char>| #[trigger] attr_values(g2, t).contains_key(a2)
                    <==> attr_values(g, t).contains_key(a2) by {
                    if attr_key(t, a2) == k {
                    }
                }
            }
            assert(plain_value(g2, t) == Some(v));
            assert forall|t2: Seq<char>| t2 != t implies plain_value(g2, t2) == plain_value(g, t2)
                && attr_values(g2, t2) =~= attr_values(g, t2) by {
                if simple_key(t2) == k {
                    assert(t2 =~= simple_key(t2).skip(2));
                    assert(t =~= simple_key(t).skip(2));
                }
                assert forall|a2: Seq<char>| #[trigger] attr_values(g2, t2).contains_key(a2)
                    <==> attr_values(g, t2).contains_key(a2) by {
                    if attr_key(t2, a2) == k {
                    }
                }
            }
            assert forall|t2: Seq<char>| #[trigger] r2.contains_key(t2) <==> has_element(g2, t2) by {
                if t2 != t {
                    if has_element(g2, t2) && plain_value(g2, t2) is None {
                        let a2 = choose|a2: Seq<char>| #[trigger] attr_values(g2, t2).contains_key(a2);
                        assert(attr_values(g, t2).contains_key(a2));
                    }
                    if has_element(g, t2) && plain_value(g, t2) is None {
                        let a2 = choose|a2: Seq<char>| #[trigger] attr_values(g, t2).contains_key(a2);
                        assert(attr_values(g2, t2).contains_key(a2));
                    }
                }
            }
            assert forall|t2: Seq<char>| #[trigger] r2.contains_key(t2) implies r2[t2] == element_value(
                g2,
                t2,
            ) by {
                if t2 == t {
                    if let JsonV::Object(o) = v {
                        assert(o.union_prefer_right(attr_values(g2, t)) =~= o);
                    }
                }
            }
        }

#[verifier::rlimit(50)]
proof fn lemma_step_other(
    g: Map<Seq<char>, JsonV>,
    r: Map<Seq<char>, JsonV>,
    k: Seq<char>,
    v: JsonV,
)
    requires
        is_unflattening(g, r),
        !g.contains_key(k),
        forall|x: Seq<char>| #[trigger] g.contains_key(x) ==> seq_lt(x, k),
        read_key(k) is None,
    ensures
        is_unflattening(g.insert(k, v), unflatten_step(r, k, v)),
{
    let g2 = g.insert(k, v);
    let r2 = unflatten_step(r, k, v);
            assert forall|t2: Seq<char>| plain_value(g2, t2) == plain_value(g, t2) && attr_values(
                g2,
                t2,
            ) =~= attr_values(g, t2) by {
                assert forall|a2: Seq<char>| #[trigger] attr_values(g2, t2).contains_key(a2)
                    <==> attr_values(g, t2).contains_key(a2) by {
                    if attr_key(t2, a2) == k {
                    }
                }
            }
            assert forall|t2: Seq<char>| #[trigger] r2.contains_key(t2) <==> has_element(g2, t2) by {
                if has_element(g2, t2) && plain_value(g2, t2) is None {
                    let a2 = choose|a2: Seq<char>| #[trigger] attr_values(g2, t2).contains_key(a2);
                    assert(attr_values(g, t2).contains_key(a2));
                }
                if has_element(g, t2) && plain_value(g, t2) is None {
                    let a2 = choose|a2: Seq<char>| #[trigger] attr_values(g, t2).contains_key(a2);
                    assert(attr_values(g2, t2).contains_key(a2));
                }
            }
}

/// How a key reads back, as an exec value.
pub enum KeyShape {
    /// `r_<element>_<attribute>`.
    Attribute(String, String),
    /// `r_<element>`.
    Plain(String),
    /// Not an `r_` field.
    NotField,
}

/// Reads a key as reconstruction does (see `read_key`).
pub fn read_field_key(k: &String) -> (r: KeyShape)
    ensures
        match r {
            KeyShape::Attribute(t, a) => read_key(k@) == Some((t@, Some(a@))),
            KeyShape::Plain(t) => read_key(k@) == Some((t@, None::<Seq<char>>)),
            KeyShape::NotField => read_key(k@) is None,
        },
{
    let c = chars_of(k.as_str());
    if !(c.len() >= 2 && c[0] == 'r' && c[1] == '_') {
        proof {
            if is_prefix(r_prefix(), k@) {
                assert(k@.subrange(0, 2)[0] == 'r');
                assert(k@.subrange(0, 2)[1] == '_');
            }
        }
        return KeyShape::NotField;
    }
    assert(k@.subrange(0, 2) =~= r_prefix());
    let mut rest: Vec<char> = Vec::new();
    let mut i: usize = 2;
    while i < c.len()
        invariant
            2 <= i <= c@.len(),
            rest@ == c@.subrange(2, i as int),
        decreases c@.len() - i,
    {
        rest.push(c[i]);
        i = i + 1;
        assert(rest@ =~= c@.subrange(2, i as int));
    }
    assert(rest@ =~= k@.skip(2));
    let mut p: usize = rest.len();
    assert(rest@.take(p as int) =~= rest@);
    while p > 0 && rest[p - 1] != '_'
        invariant
            p <= rest@.len(),
            last_underscore(rest@) == last_underscore(rest@.take(p as int)),
        decreases p,
    {
        assert(rest@.take(p as int).drop_last() =~= rest@.take(p - 1));
        p = p - 1;
    }
    if p == 0 {
        assert(rest@.take(0) =~= Seq::<char>::empty());
        return KeyShape::Plain(string_from_chars(&rest));
    }
    let q = p - 1;
    assert(rest@.take(p as int).last() == '_');
    if q > 0 && q + 1 < rest.len() {
        let mut t: Vec<char> = Vec::new();
        let mut j: usize = 0;
        while j < q
            invariant
                j <= q,
                q < rest@.len(),
                t@ == rest@.take(j as int),
            decreases q - j,
        {
            t.push(rest[j]);
            j = j + 1;
            assert(t@ =~= rest@.take(j as int));
        }
        let mut a: Vec<char> = Vec::new();
        let mut j: usize = q + 1;
        while j < rest.len()
            invariant
                q + 1 <= j <= rest@.len(),
                a@ == rest@.subrange(q + 1, j as int),
            decreases rest@.len() - j,
        {
            a.push(rest[j]);
            j = j + 1;
            assert(a@ =~= rest@.subrange(q + 1, j as int));
        }
        assert(a@ =~= rest@.skip(q + 1));
        KeyShape::Attribute(string_from_chars(&t), string_from_chars(&a))
    } else {
        KeyShape::Plain(string_from_chars(&rest))
    }
}

/// Reconstructs the `r` map from the `r_*` fields among `flattened_map`:
/// `r_<element>_<attribute>` (split at the last `_`, both parts non-empty)
/// becomes an attribute of an object under `<element>`; any other `r_<x>`
/// becomes the value of `<x>`.
pub fn unflatten_r_field(flattened_map: &JsonMap) -> (r: JsonMap)
    ensures
        is_unflattening(flattened_map@, r@),
{
    proof {
        use_type_invariant(flattened_map);
        flattened_map.lemma_keys();
    }
    let mut r = JsonMap::new();
    let ghost mut g: Map<Seq<char>, JsonV> = Map::empty();
    let n = flattened_map.len();
    let mut i: usize = 0;
    while i < n
        invariant
            n == flattened_map.keys().len(),
            i <= n,
            forall|j: int| 0 <= j < n ==> flattened_map@.contains_key(#[trigger] flattened_map.keys()[j]),
            forall|j: int, l: int|
                0 <= j < l < n ==> seq_lt(
                    #[trigger] flattened_map.keys()[j],
                    #[trigger] flattened_map.keys()[l],
                ),
            forall|x: Seq<char>|
                #[trigger] g.contains_key(x) <==> flattened_map.keys().take(i as int).contains(x),
            forall|x: Seq<char>| #[trigger] g.contains_key(x) ==> g[x] == flattened_map@[x],
            is_unflattening(g, r@),
        decreases n - i,
    {
        let (k, v) = flattened_map.entry_at(i);
        let ghost ks = flattened_map.keys().take(i as int);
        let ghost old_r = r@;
        proof {
            assert forall|x: Seq<char>| #[trigger] g.contains_key(x) implies seq_lt(x, k@) by {
                let j = choose|j: int| 0 <= j < ks.len() && ks[j] == x;
                assert(flattened_map.keys()[j] == x);
            }
            assert(!g.contains_key(k@)) by {
                if g.contains_key(k@) {
                    lemma_lt_irreflexive(k@);
                }
            }
            lemma_unflatten_step(g, r@, k@, v@);
        }
        match read_field_key(k) {
            KeyShape::Attribute(t, a) => {
                let ghost tv = t@;
                let ghost av = a@;
                match r.remove(t.as_str()) {
                    Some(JsonValue::Object(mut o)) => {
                        o.insert(a, v.copy());
                        r.insert(t, JsonValue::Object(o));
                        proof {
                            assert(r@ =~= unflatten_step(old_r, k@, v@));
                        }
                    },
                    Some(other) => {
                        r.insert(t, other);
                        proof {
                            assert(r@ =~= unflatten_step(old_r, k@, v@));
                        }
                    },
                    None => {
                        let mut o = JsonMap::new();
                        o.insert(a, v.copy());
                        r.insert(t, JsonValue::Object(o));
                        proof {
                            assert(r@ =~= unflatten_step(old_r, k@, v@));
                        }
                    },
                }
            },
            KeyShape::Plain(t) => {
                r.insert(t, v.copy());
            },
            KeyShape::NotField => {},
        }
        proof {
            g = g.insert(k@, v@);
            assert(flattened_map.keys().take(i + 1) =~= ks.push(k@));
            assert forall|x: Seq<char>| #[trigger] g.contains_key(x) <==> flattened_map.keys().take(
                i + 1,
            ).contains(x) by {
                let ks1 = flattened_map.keys().take(i + 1);
                if x == k@ {
                    assert(ks1[ks.len() as int] == x);
                }
                if ks1.contains(x) && x != k@ {
                    let l = choose|l: int| 0 <= l < ks1.len() && ks1[l] == x;
                    assert(ks[l] == x);
                }
                if ks.contains(x) {
                    let l = choose|l: int| 0 <= l < ks.len() && ks[l] == x;
                    assert(ks1[l] == x);
                }
            }
        }
        i = i + 1;
    }
    proof {
        assert(flattened_map.keys().take(n as int) =~= flattened_map.keys());
        assert(g =~= flattened_map@);
    }
    r
}

/// `k` is not an `r_` field.
pub open spec fn not_a_field(k: Seq<char>) -> bool {
    !is_prefix(r_prefix(), k)
}

/// Reconstructs the `r` map from the `r_*` fields of `document_map`,
/// removes those fields from it, and, when the map has any element, stores
/// it under `r`. Gives back the reconstructed map.
pub fn unflatten_document_r_field(document_map: &mut JsonMap) -> (r: JsonMap)
    ensures
        is_unflattening(old(document_map)@, r@),
        r@.dom().len() == 0 ==> final(document_map)@ == old(document_map)@.restrict(
            Set::new(|k: Seq<char>| not_a_field(k)),
        ),
        r@.dom().len() > 0 ==> final(document_map)@ == old(document_map)@.restrict(
            Set::new(|k: Seq<char>| not_a_field(k)),
        ).insert(seq!['r'], JsonV::Object(r@)),
{
    let r = unflatten_r_field(&*document_map);
    let ghost old_doc = document_map@;
    proof {
        use_type_invariant(&*document_map);
        document_map.lemma_keys();
    }
    let mut doomed: Vec<String> = Vec::new();
    let n = document_map.len();
    let mut i: usize = 0;
    while i < n
        invariant
            document_map@ == old_doc,
            n == document_map.keys().len(),
            i <= n,
            forall|j: int| 0 <= j < n ==> old_doc.contains_key(#[trigger] document_map.keys()[j]),
            forall|x: Seq<char>| #[trigger] old_doc.contains_key(x) ==> document_map.keys().contains(x),
            forall|j: int| 0 <= j < doomed@.len() ==> !not_a_field(#[trigger] doomed@[j]@),
            forall|x: Seq<char>|
                document_map.keys().take(i as int).contains(x) && !not_a_field(x) ==> exists|j: int|
                    0 <= j < doomed@.len() && #[trigger] doomed@[j]@ == x,
        decreases n - i,
    {
        let (k, _) = document_map.entry_at(i);
        let kc = chars_of(k.as_str());
        let ghost ks = document_map.keys().take(i as int);
        let ghost ks1 = document_map.keys().take(i + 1);
        let is_field = kc.len() >= 2 && kc[0] == 'r' && kc[1] == '_';
        proof {
            assert(ks1 =~= ks.push(k@));
            if is_prefix(r_prefix(), k@) {
                assert(k@.subrange(0, 2)[0] == 'r');
                assert(k@.subrange(0, 2)[1] == '_');
            }
            if is_field {
                assert(k@.subrange(0, 2) =~= r_prefix());
            }
        }
        let ghost old_doomed = doomed@;
        if is_field {
            doomed.push(copy_key(k));
        }
        proof {
            assert forall|x: Seq<char>| ks1.contains(x) && !not_a_field(x) implies exists|j: int|
                0 <= j < doomed@.len() && #[trigger] doomed@[j]@ == x by {
                if x == k@ {
                    assert(is_field);
                    assert(doomed@[doomed@.len() - 1]@ == x);
                } else {
                    let l = choose|l: int| 0 <= l < ks1.len() && ks1[l] == x;
                    assert(ks[l] == x);
                    assert(ks.contains(x));
                    let j = choose|j: int| 0 <= j < old_doomed.len() && #[trigger] old_doomed[j]@ == x;
                    assert(doomed@[j] == old_doomed[j]);
                }
            }
        }
        i = i + 1;
    }
    proof {
        assert(document_map.keys().take(n as int) =~= document_map.keys());
    }
    let ghost target = old_doc.restrict(Set::new(|k: Seq<char>| not_a_field(k)));
    let mut j: usize = 0;
    while j < doomed.len()
        invariant
            j <= doomed@.len(),
            forall|l: int| 0 <= l < doomed@.len() ==> !not_a_field(#[trigger] doomed@[l]@),
            forall|x: Seq<char>|
                old_doc.contains_key(x) && !not_a_field(x) ==> exists|l: int|
                    0 <= l < doomed@.len() && #[trigger] doomed@[l]@ == x,
            forall|x: Seq<char>|
                #[trigger] document_map@.contains_key(x) <==> old_doc.contains_key(x) && (not_a_field(x)
                    || forall|l: int| 0 <= l < j ==> doomed@[l]@ != x),
            forall|x: Seq<char>| #[trigger] document_map@.contains_key(x) ==> document_map@[x] == old_doc[x],
        decreases doomed@.len() - j,
    {
        let ghost before = document_map@;
        let _ = document_map.remove(doomed[j].as_str());
        proof {
            assert forall|x: Seq<char>| #[trigger] document_map@.contains_key(x) <==> old_doc.contains_key(x)
                && (not_a_field(x) || forall|l: int| 0 <= l < j + 1 ==> doomed@[l]@ != x) by {
                assert(document_map@.contains_key(x) == (before.contains_key(x) && x != doomed@[j as int]@));
                assert((forall|l: int| 0 <= l < j + 1 ==> doomed@[l]@ != x) <==> ((forall|l: int|
                    0 <= l < j ==> doomed@[l]@ != x) && doomed@[j as int]@ != x)) by {
                    if (forall|l: int| 0 <= l < j ==> doomed@[l]@ != x) && doomed@[j as int]@ != x {
                        assert forall|l: int| 0 <= l < j + 1 implies doomed@[l]@ != x by {
                            if l < j {
                            }
                        }
                    }
                }
                if not_a_field(x) {
                    assert(doomed@[j as int]@ != x);
                }
            }
        }
        j = j + 1;
    }
    proof {
        assert forall|x: Seq<char>| #[trigger] document_map@.contains_key(x) <==> target.contains_key(x) by {
            if old_doc.contains_key(x) && !not_a_field(x) {
                let l = choose|l: int| 0 <= l < doomed@.len() && #[trigger] doomed@[l]@ == x;
                assert(doomed@[l]@ == x);
            }
        }
        assert(document_map@ =~= target);
        use_type_invariant(&r);
        r.lemma_keys();
    }
    if r.len() > 0 {
        let rc = r.copy();
        document_map.insert(String::from_str("r"), JsonValue::Object(rc));
        proof {
            reveal_strlit("r");
            assert("r"@ =~= seq!['r']);
        }
    }
    r
}

/// The `r` maps that flatten and read back to themselves: an element with
/// an object value has a non-empty name and at least one attribute, and its
/// attribute names are non-empty and hold no `_`; an element with a plain
/// value holds no `_` in its name.
pub open spec fn flattens_faithfully(r: Map<Seq<char>, JsonV>) -> bool {
    forall|t: Seq<char>|
        #[trigger] r.contains_key(t) ==> match r[t] {
            JsonV::Object(o) => t.len() > 0 && (exists|a: Seq<char>| o.contains_key(a)) && forall|
                a: Seq<char>,
            | #[trigger] o.contains_key(a) ==> a.len() > 0 && no_underscore(a),
            _ => no_underscore(t),
        }
}

/// The fields that an element makes read back to that element.
proof fn lemma_produced_reads(r: Map<Seq<char>, JsonV>, t: Seq<char>, k: Seq<char>, v: JsonV)
    requires
        flattens_faithfully(r),
        produced_by(r, t, k, v),
    ensures
        match r[t] {
            JsonV::Object(o) => exists|a: Seq<char>|
                #[trigger] o.contains_key(a) && k == attr_key(t, a) && v == o[a] && read_key(k) == Some(
                    (t, Some(a)),
                ),
            _ => k == simple_key(t) && v == r[t] && read_key(k) == Some((t, None::<Seq<char>>)),
        },
{
    match r[t] {
        JsonV::Object(o) => {
            let a = choose|a: Seq<char>| #[trigger] o.contains_key(a) && k == attr_key(t, a) && v == o[a];
            lemma_read_attr_key(t, a);
        },
        _ => {
            lemma_read_simple_key(t);
        },
    }
}

/// Under `flattens_faithfully`, every field has exactly one source.
proof fn lemma_unique_source(r: Map<Seq<char>, JsonV>, f: Map<Seq<char>, JsonV>)
    requires
        flattens_faithfully(r),
        is_flattening(r, f),
    ensures
        forall|t: Seq<char>, k: Seq<char>, v: JsonV|
            #[trigger] produced_by(r, t, k, v) ==> f.contains_key(k) && f[k] == v,
{
    assert forall|t: Seq<char>, k: Seq<char>, v: JsonV| #[trigger] produced_by(r, t, k, v) implies f.contains_key(
        k,
    ) && f[k] == v by {
        let t2 = choose|t2: Seq<char>| produced_by(r, t2, k, f[k]);
        lemma_produced_reads(r, t, k, v);
        lemma_produced_reads(r, t2, k, f[k]);
    }
}

/// Under `flattens_faithfully`, the fields give exactly the elements of `r`
/// a value.
proof fn lemma_roundtrip_dom(r: Map<Seq<char>, JsonV>, f: Map<Seq<char>, JsonV>, t: Seq<char>)
    requires
        flattens_faithfully(r),
        is_flattening(r, f),
        forall|t: Seq<char>, k: Seq<char>, v: JsonV|
            #[trigger] produced_by(r, t, k, v) ==> f.contains_key(k) && f[k] == v,
    ensures
        has_element(f, t) <==> r.contains_key(t),
{
    if r.contains_key(t) {
        match r[t] {
            JsonV::Object(o) => {
                let a = choose|a: Seq<char>| o.contains_key(a);
                lemma_produced_attr(r, t, o, a, attr_key(t, a), o[a]);
                lemma_produced_reads(r, t, attr_key(t, a), o[a]);
                lemma_read_attr_key(t, a);
                assert(attr_values(f, t).contains_key(a));
            },
            _ => {
                assert(produced_by(r, t, simple_key(t), r[t]));
                lemma_produced_reads(r, t, simple_key(t), r[t]);
            },
        }
    }
    if has_element(f, t) {
        if plain_value(f, t) is Some {
            let t2 = choose|t2: Seq<char>| produced_by(r, t2, simple_key(t), f[simple_key(t)]);
            lemma_produced_reads(r, t2, simple_key(t), f[simple_key(t)]);
        } else {
            let a = choose|a: Seq<char>| #[trigger] attr_values(f, t).contains_key(a);
            let t2 = choose|t2: Seq<char>| produced_by(r, t2, attr_key(t, a), f[attr_key(t, a)]);
            lemma_produced_reads(r, t2, attr_key(t, a), f[attr_key(t, a)]);
        }
    }
}

/// Under `flattens_faithfully`, each element reads back to its value.
proof fn lemma_roundtrip_value(r: Map<Seq<char>, JsonV>, f: Map<Seq<char>, JsonV>, t: Seq<char>)
    requires
        flattens_faithfully(r),
        is_flattening(r, f),
        forall|t: Seq<char>, k: Seq<char>, v: JsonV|
            #[trigger] produced_by(r, t, k, v) ==> f.contains_key(k) && f[k] == v,
        r.contains_key(t),
    ensures
        element_value(f, t) == r[t],
{
    match r[t] {
        JsonV::Object(o) => {
            assert(plain_value(f, t) is None) by {
                if plain_value(f, t) is Some {
                    let t2 = choose|t2: Seq<char>| produced_by(r, t2, simple_key(t), f[simple_key(t)]);
                    lemma_produced_reads(r, t2, simple_key(t), f[simple_key(t)]);
                }
            }
            assert forall|a: Seq<char>| #[trigger] attr_values(f, t).contains_key(a) <==> o.contains_key(a) by {
                if o.contains_key(a) {
                    lemma_produced_attr(r, t, o, a, attr_key(t, a), o[a]);
                    lemma_produced_reads(r, t, attr_key(t, a), o[a]);
                    lemma_read_attr_key(t, a);
                }
                if attr_values(f, t).contains_key(a) {
                    let t2 = choose|t2: Seq<char>| produced_by(r, t2, attr_key(t, a), f[attr_key(t, a)]);
                    lemma_produced_reads(r, t2, attr_key(t, a), f[attr_key(t, a)]);
                }
            }
            assert forall|a: Seq<char>| #[trigger] attr_values(f, t).contains_key(a) implies attr_values(f, t)[a]
                == o[a] by {
                lemma_produced_attr(r, t, o, a, attr_key(t, a), o[a]);
            }
            assert(attr_values(f, t) =~= o);
        },
        _ => {
            assert(produced_by(r, t, simple_key(t), r[t]));
            lemma_produced_reads(r, t, simple_key(t), r[t]);
        },
    }
}

/// Flattening an `r` map and reading the fields back gives the map again,
/// for every map whose element and attribute names allow it
/// (`flattens_faithfully`).
pub proof fn lemma_flatten_unflatten_roundtrip(
    r: Map<Seq<char>, JsonV>,
    f: Map<Seq<char>, JsonV>,
    back: Map<Seq<char>, JsonV>,
)
    requires
        flattens_faithfully(r),
        is_flattening(r, f),
        is_unflattening(f, back),
    ensures
        back =~= r,
{
    lemma_unique_source(r, f);
    assert forall|t: Seq<char>| #[trigger] back.contains_key(t) <==> r.contains_key(t) by {
        lemma_roundtrip_dom(r, f, t);
    }
    assert forall|t: Seq<char>| #[trigger] back.contains_key(t) implies back[t] == r[t] by {
        lemma_roundtrip_value(r, f, t);
    }
}

} // verus!

//! JSON values as the library holds them: the six kinds of JSON value,
//! objects kept with their keys in ascending order (the order in which a
//! JSON object without insertion order yields them), and their mathematical
//! view.
use vstd::prelude::*;
use crate::text::{chars_of, chars_eq, chars_lt, copy_string, push_char, seq_lt, lemma_lt_irreflexive, lemma_lt_transitive, lemma_lt_total};

verus! {

/// A JSON number, held by the two texts that are read of it: its JSON
/// text (`1`, `2.5`) and the text that `f64`'s `Display` gives of its value
/// (`1`, `2.5`; `15` for the JSON text `15.0`).
#[derive(Debug)]
pub struct JsonNumber {
    pub text: String,
    pub display: String,
}

/// A JSON value.
#[derive(Debug)]
pub enum JsonValue {
    Null,
    Bool(bool),
    Number(JsonNumber),
    Str(String),
    Array(Vec<JsonValue>),
    Object(JsonMap),
}

/// A JSON object: keys are unique and kept in ascending order.
#[derive(Debug)]
pub struct JsonMap {
    entries: Vec<(String, JsonValue)>,
}

/// The mathematical view of a JSON value.
pub enum JsonV {
    Null,
    Bool(bool),
    Number(Seq<char>, Seq<char>),
    Str(Seq<char>),
    Array(Seq<JsonV>),
    Object(Map<Seq<char>, JsonV>),
}

/// The view of a value.
pub open spec fn value_view(v: JsonValue) -> JsonV
    decreases v,
{
    match v {
        JsonValue::Null => JsonV::Null,
        JsonValue::Bool(b) => JsonV::Bool(b),
        JsonValue::Number(n) => JsonV::Number(n.text@, n.display@),
        JsonValue::Str(s) => JsonV::Str(s@),
        JsonValue::Array(a) => JsonV::Array(values_view(a@)),
        JsonValue::Object(m) => JsonV::Object(map_view(m)),
    }
}

/// The views of a sequence of values.
pub open spec fn values_view(s: Seq<JsonValue>) -> Seq<JsonV>
    decreases s,
{
    if s.len() == 0 {
        Seq::empty()
    } else {
        values_view(s.drop_last()).push(value_view(s.last()))
    }
}

/// The view of an object: its keys and the views of their values.
pub closed spec fn map_view(m: JsonMap) -> Map<Seq<char>, JsonV>
    decreases m,
{
    entries_view(m.entries@)
}

/// The map that a sequence of entries stands for.
pub closed spec fn entries_view(s: Seq<(String, JsonValue)>) -> Map<Seq<char>, JsonV>
    decreases s,
{
    if s.len() == 0 {
        Map::empty()
    } else {
        entries_view(s.drop_last()).insert(s.last().0@, value_view(s.last().1))
    }
}

impl View for JsonValue {
    type V = JsonV;

    open spec fn view(&self) -> JsonV {
        value_view(*self)
    }
}

impl View for JsonMap {
    type V = Map<Seq<char>, JsonV>;

    open spec fn view(&self) -> Map<Seq<char>, JsonV> {
        map_view(*self)
    }
}

/// `s` lists the keys of `m` in ascending order.
pub open spec fn is_key_order(m: Map<Seq<char>, JsonV>, s: Seq<Seq<char>>) -> bool {
    &&& forall|i: int, j: int| 0 <= i < j < s.len() ==> seq_lt(#[trigger] s[i], #[trigger] s[j])
    &&& forall|k: Seq<char>| #[trigger] m.contains_key(k) <==> s.contains(k)
}

/// The keys of `m` in ascending order: the order in which an object yields
/// them.
pub open spec fn key_order(m: Map<Seq<char>, JsonV>) -> Seq<Seq<char>> {
    choose|s: Seq<Seq<char>>| is_key_order(m, s)
}

/// There is only one ascending listing of the keys of a map.
pub proof fn lemma_key_order_unique(m: Map<Seq<char>, JsonV>, a: Seq<Seq<char>>, b: Seq<Seq<char>>)
    requires
        is_key_order(m, a),
        is_key_order(m, b),
    ensures
        a == b,
    decreases a.len(),
{
    if a.len() == 0 {
        if b.len() > 0 {
            assert(m.contains_key(b[0]));
        }
        assert(a =~= b);
    } else {
        assert(m.contains_key(a[0]));
        let j = choose|j: int| 0 <= j < b.len() && b[j] == a[0];
        assert(m.contains_key(b[0]));
        let i = choose|i: int| 0 <= i < a.len() && a[i] == b[0];
        if j > 0 {
            assert(seq_lt(b[0], b[j]));
            if i > 0 {
                assert(seq_lt(a[0], a[i]));
                lemma_lt_transitive(a[0], b[0], a[0]);
                lemma_lt_irreflexive(a[0]);
            } else {
                lemma_lt_irreflexive(a[0]);
            }
        }
        assert(a[0] == b[0]);
        let m2 = m.remove(a[0]);
        assert forall|i1: int, j1: int| 0 <= i1 < j1 < a.drop_first().len() implies seq_lt(
            #[trigger] a.drop_first()[i1],
            #[trigger] a.drop_first()[j1],
        ) by {
            assert(seq_lt(a[i1 + 1], a[j1 + 1]));
        }
        assert forall|i1: int, j1: int| 0 <= i1 < j1 < b.drop_first().len() implies seq_lt(
            #[trigger] b.drop_first()[i1],
            #[trigger] b.drop_first()[j1],
        ) by {
            assert(seq_lt(b[i1 + 1], b[j1 + 1]));
        }
        assert forall|k: Seq<char>| #[trigger] m2.contains_key(k) <==> a.drop_first().contains(k) by {
            if m2.contains_key(k) {
                let l = choose|l: int| 0 <= l < a.len() && a[l] == k;
                assert(a.drop_first()[l - 1] == k);
            }
            if a.drop_first().contains(k) {
                let l = choose|l: int| 0 <= l < a.drop_first().len() && a.drop_first()[l] == k;
                assert(a[l + 1] == k);
                assert(seq_lt(a[0], a[l + 1]));
                lemma_lt_irreflexive(k);
            }
        }
        assert forall|k: Seq<char>| #[trigger] m2.contains_key(k) <==> b.drop_first().contains(k) by {
            if m2.contains_key(k) {
                let l = choose|l: int| 0 <= l < b.len() && b[l] == k;
                assert(b.drop_first()[l - 1] == k);
            }
            if b.drop_first().contains(k) {
                let l = choose|l: int| 0 <= l < b.drop_first().len() && b.drop_first()[l] == k;
                assert(b[l + 1] == k);
                assert(seq_lt(b[0], b[l + 1]));
                lemma_lt_irreflexive(k);
            }
        }
        lemma_key_order_unique(m2, a.drop_first(), b.drop_first());
        assert(a =~= seq![a[0]] + a.drop_first());
        assert(b =~= seq![b[0]] + b.drop_first());
    }
}

/// Keys strictly ascending.
pub open spec fn sorted_keys(s: Seq<(String, JsonValue)>) -> bool {
    forall|i: int, j: int| 0 <= i < j < s.len() ==> seq_lt(#[trigger] s[i].0@, #[trigger] s[j].0@)
}

impl JsonMap {
    /// Keys are ascending (and so unique). Holds of every `JsonMap`; a
    /// caller learns it with `use_type_invariant`.
    #[verifier::type_invariant]
    pub closed spec fn inv(self) -> bool {
        sorted_keys(self.entries@)
    }

    /// The keys in the order in which the object yields them (ascending).
    pub closed spec fn keys(self) -> Seq<Seq<char>> {
        self.entries@.map_values(|e: (String, JsonValue)| e.0@)
    }

    /// The keys are ascending, they are exactly the keys of the view, and
    /// none occurs twice.
    pub proof fn lemma_keys(self)
        requires
            self.inv(),
        ensures
            forall|i: int, j: int|
                0 <= i < j < self.keys().len() ==> seq_lt(
                    #[trigger] self.keys()[i],
                    #[trigger] self.keys()[j],
                ),
            forall|i: int| 0 <= i < self.keys().len() ==> self@.contains_key(#[trigger] self.keys()[i]),
            forall|k: Seq<char>| #[trigger] self@.contains_key(k) ==> self.keys().contains(k),
            self@.dom().finite(),
            self@.dom().len() == self.keys().len(),
            key_order(self@) == self.keys(),
    {
        lemma_entries_view(self.entries@);
        reveal(map_view);
        assert forall|k: Seq<char>| #[trigger] self@.contains_key(k) implies self.keys().contains(k) by {
            let i = choose|i: int| 0 <= i < self.entries@.len() && self.entries@[i].0@ == k;
            assert(self.keys()[i] == k);
        }
        lemma_dom_len(self.entries@);
        assert(is_key_order(self@, self.keys()));
        lemma_key_order_unique(self@, key_order(self@), self.keys());
    }

    /// An empty object.
    pub fn new() -> (r: JsonMap)
        ensures
            r@ == Map::<Seq<char>, JsonV>::empty(),
            r.keys().len() == 0,
    {
        let r = JsonMap { entries: Vec::new() };
        proof {
            reveal(map_view);
            assert(entries_view(r.entries@) =~= Map::empty());
        }
        r
    }

    /// The number of keys.
    pub fn len(&self) -> (r: usize)
        ensures
            r == self.keys().len(),
    {
        self.entries.len()
    }

    /// The key at position `i` in key order, and its value.
    pub fn entry_at(&self, i: usize) -> (r: (&String, &JsonValue))
        requires
            i < self.keys().len(),
        ensures
            r.0@ == self.keys()[i as int],
            self@.contains_key(r.0@),
            self@[r.0@] == r.1@,
            decreases_to!(*self => *r.1),
    {
        proof {
            use_type_invariant(self);
            lemma_entries_view(self.entries@);
        }
        let e = &self.entries[i];
        assert(self@ == entries_view(self.entries@)) by {
            reveal(map_view);
        }
        assert(decreases_to!(*self => self.entries));
        assert(decreases_to!(self.entries => self.entries@));
        assert(decreases_to!(self.entries@ => self.entries@[i as int]));
        (&e.0, &e.1)
    }

    /// Position of the first key that is not below `k`.
    fn search(&self, k: &[char]) -> (r: usize)
        ensures
            r <= self.entries@.len(),
            forall|j: int| 0 <= j < r ==> seq_lt(#[trigger] self.entries@[j].0@, k@),
            forall|j: int| r <= j < self.entries@.len() ==> !seq_lt(#[trigger] self.entries@[j].0@, k@),
    {
        proof {
            use_type_invariant(self);
        }
        let mut i: usize = 0;
        while i < self.entries.len()
            invariant
                sorted_keys(self.entries@),
                i <= self.entries@.len(),
                forall|j: int| 0 <= j < i ==> seq_lt(#[trigger] self.entries@[j].0@, k@),
            decreases self.entries@.len() - i,
        {
            let ki = chars_of(self.entries[i].0.as_str());
            if !chars_lt(&ki, k) {
                assert forall|j: int| i <= j < self.entries@.len() implies !seq_lt(
                    #[trigger] self.entries@[j].0@,
                    k@,
                ) by {
                    if j > i && seq_lt(self.entries@[j].0@, k@) {
                        lemma_lt_transitive(self.entries@[i as int].0@, self.entries@[j].0@, k@);
                    }
                }
                return i;
            }
            i = i + 1;
        }
        i
    }

    /// The value under key `k`, if any.
    pub fn get(&self, k: &str) -> (r: Option<&JsonValue>)
        ensures
            r is Some <==> self@.contains_key(k@),
            r matches Some(v) ==> self@[k@] == v@,
    {
        proof {
            use_type_invariant(self);
            lemma_entries_view(self.entries@);
        }
        let kc = chars_of(k);
        let i = self.search(&kc);
        if i < self.entries.len() {
            let ki = chars_of(self.entries[i].0.as_str());
            if chars_eq(&ki, &kc) {
                return Some(&self.entries[i].1);
            }
            proof {
                assert forall|j: int| 0 <= j < self.entries@.len() implies #[trigger] self.entries@[j].0@
                    != k@ by {
                    if j > i {
                        lemma_lt_total(self.entries@[i as int].0@, k@);
                        lemma_lt_transitive(k@, self.entries@[i as int].0@, self.entries@[j].0@);
                        lemma_lt_irreflexive(k@);
                    } else if j == i {
                    } else {
                        lemma_lt_irreflexive(k@);
                    }
                }
            }
        } else {
            proof {
                assert forall|j: int| 0 <= j < self.entries@.len() implies #[trigger] self.entries@[j].0@
                    != k@ by {
                    lemma_lt_irreflexive(k@);
                }
            }
        }
        None
    }

    /// Whether key `k` is present.
    pub fn contains_key(&self, k: &str) -> (r: bool)
        ensures
            r == self@.contains_key(k@),
    {
        self.get(k).is_some()
    }

    /// Sets key `k` to `v`, replacing any value it had.
    pub fn insert(&mut self, k: String, v: JsonValue)
        ensures
            final(self)@ == old(self)@.insert(k@, v@),
    {
        proof {
            use_type_invariant(&*self);
            lemma_entries_view(self.entries@);
        }
        let kc = chars_of(k.as_str());
        let i = self.search(&kc);
        let ghost old_entries = self.entries@;
        let ghost kv = k@;
        let ghost vv = v@;
        let mut replace = false;
        if i < self.entries.len() {
            let ki = chars_of(self.entries[i].0.as_str());
            replace = chars_eq(&ki, &kc);
        }
        let mut entries: Vec<(String, JsonValue)> = Vec::new();
        std::mem::swap(&mut entries, &mut self.entries);
        assert(entries@ == old_entries);
        if replace {
            entries.set(i, (k, v));
            proof {
                assert forall|a: int, b: int| 0 <= a < b < entries@.len() implies seq_lt(
                    #[trigger] entries@[a].0@,
                    #[trigger] entries@[b].0@,
                ) by {
                    assert(old_entries[a].0@ == entries@[a].0@ || a == i);
                    assert(old_entries[b].0@ == entries@[b].0@ || b == i);
                }
                lemma_entries_view(entries@);
                assert(entries_view(entries@) =~= entries_view(old_entries).insert(kv, vv)) by {
                    lemma_same_keys_replace(old_entries, entries@, i as int);
                }
            }
        } else {
            entries.insert(i, (k, v));
            proof {
                assert forall|a: int, b: int| 0 <= a < b < entries@.len() implies seq_lt(
                    #[trigger] entries@[a].0@,
                    #[trigger] entries@[b].0@,
                ) by {
                    if a < i && b == i {
                    } else if a == i && b > i {
                        lemma_lt_total(old_entries[b - 1].0@, kv);
                        if i < old_entries.len() {
                            if b - 1 > i {
                                lemma_lt_total(old_entries[i as int].0@, kv);
                                lemma_lt_transitive(
                                    kv,
                                    old_entries[i as int].0@,
                                    old_entries[b - 1].0@,
                                );
                            } else {
                                lemma_lt_total(old_entries[i as int].0@, kv);
                            }
                        }
                    } else if a < i && b > i {
                    } else {
                    }
                }
                lemma_entries_view(entries@);
                lemma_insert_view(old_entries, entries@, i as int);
            }
        }
        self.entries = entries;
        proof {
            reveal(map_view);
        }
    }

    /// Removes key `k`, giving back its value if it had one.
    pub fn remove(&mut self, k: &str) -> (r: Option<JsonValue>)
        ensures
            final(self)@ == old(self)@.remove(k@),
            r is Some <==> old(self)@.contains_key(k@),
            r matches Some(v) ==> old(self)@[k@] == v@,
    {
        proof {
            use_type_invariant(&*self);
            lemma_entries_view(self.entries@);
        }
        let kc = chars_of(k);
        let i = self.search(&kc);
        let ghost old_entries = self.entries@;
        if i < self.entries.len() {
            let ki = chars_of(self.entries[i].0.as_str());
            if chars_eq(&ki, &kc) {
                let mut entries: Vec<(String, JsonValue)> = Vec::new();
        std::mem::swap(&mut entries, &mut self.entries);
                assert(entries@ == old_entries);
                let (_, v) = entries.remove(i);
                proof {
                    assert forall|a: int, b: int| 0 <= a < b < entries@.len() implies seq_lt(
                        #[trigger] entries@[a].0@,
                        #[trigger] entries@[b].0@,
                    ) by {
                        if a >= i {
                            assert(entries@[a] == old_entries[a + 1]);
                        }
                        if b >= i {
                            assert(entries@[b] == old_entries[b + 1]);
                        }
                    }
                    lemma_entries_view(entries@);
                    lemma_remove_view(old_entries, entries@, i as int);
                }
                self.entries = entries;
                proof {
                    reveal(map_view);
                }
                return Some(v);
            }
        }
        proof {
            assert forall|j: int| 0 <= j < old_entries.len() implies #[trigger] old_entries[j].0@ != k@ by {
                if j > i && i < old_entries.len() {
                    lemma_lt_total(old_entries[i as int].0@, k@);
                    lemma_lt_transitive(k@, old_entries[i as int].0@, old_entries[j].0@);
                    lemma_lt_irreflexive(k@);
                } else if j < i {
                    lemma_lt_irreflexive(k@);
                }
            }
            assert(old(self)@.remove(k@) =~= old(self)@);
        }
        None
    }

    /// A deep copy.
    pub fn copy(&self) -> (r: JsonMap)
        ensures
            r@ == self@,
            r.keys() == self.keys(),
        decreases self,
    {
        proof {
            use_type_invariant(self);
        }
        let mut entries: Vec<(String, JsonValue)> = Vec::new();
        let mut i: usize = 0;
        while i < self.entries.len()
            invariant
                sorted_keys(self.entries@),
                i <= self.entries@.len(),
                entries@.len() == i,
                forall|j: int|
                    0 <= j < i ==> (#[trigger] entries@[j]).0@ == self.entries@[j].0@ && value_view(
                        entries@[j].1,
                    ) == value_view(self.entries@[j].1),
            decreases self.entries@.len() - i,
        {
            let k = copy_string(&self.entries[i].0);
            let v = self.entries[i].1.copy();
            entries.push((k, v));
            i = i + 1;
        }
        proof {
            assert(sorted_keys(entries@));
            lemma_entries_view_congruent(entries@, self.entries@);
            assert(entries@.map_values(|e: (String, JsonValue)| e.0@) =~= self.entries@.map_values(
                |e: (String, JsonValue)| e.0@,
            ));
        }
        let r = JsonMap { entries };
        proof {
            reveal(map_view);
        }
        r
    }
}

/// Two entry sequences with the same keys and values in the same places
/// stand for the same map.
proof fn lemma_entries_view_congruent(a: Seq<(String, JsonValue)>, b: Seq<(String, JsonValue)>)
    requires
        a.len() == b.len(),
        forall|j: int|
            0 <= j < a.len() ==> (#[trigger] a[j]).0@ == b[j].0@ && value_view(a[j].1) == value_view(
                b[j].1,
            ),
    ensures
        entries_view(a) == entries_view(b),
    decreases a.len(),
{
    if a.len() > 0 {
        lemma_entries_view_congruent(a.drop_last(), b.drop_last());
        assert(a.last().0@ == b.last().0@);
    }
}

/// What the view of unique, ordered entries holds.
proof fn lemma_entries_view(s: Seq<(String, JsonValue)>)
    requires
        sorted_keys(s),
    ensures
        forall|i: int|
            0 <= i < s.len() ==> #[trigger] entries_view(s).contains_key(s[i].0@) && entries_view(
                s,
            )[s[i].0@] == value_view(s[i].1),
        forall|k: Seq<char>|
            #[trigger] entries_view(s).contains_key(k) ==> exists|i: int|
                0 <= i < s.len() && s[i].0@ == k,
        entries_view(s).dom().finite(),
    decreases s.len(),
{
    if s.len() > 0 {
        let p = s.drop_last();
        assert(sorted_keys(p));
        lemma_entries_view(p);
        assert forall|i: int| 0 <= i < s.len() implies #[trigger] entries_view(s).contains_key(s[i].0@)
            && entries_view(s)[s[i].0@] == value_view(s[i].1) by {
            if i < s.len() - 1 {
                assert(p[i] == s[i]);
                assert(s[i].0@ != s.last().0@) by {
                    lemma_lt_irreflexive(s[i].0@);
                }
            }
        }
        assert forall|k: Seq<char>| #[trigger] entries_view(s).contains_key(k) implies exists|i: int|
            0 <= i < s.len() && s[i].0@ == k by {
            if k != s.last().0@ {
                let i = choose|i: int| 0 <= i < p.len() && p[i].0@ == k;
                assert(s[i] == p[i]);
            } else {
                assert(s[s.len() - 1].0@ == k);
            }
        }
    }
}

/// The number of keys of the view of unique entries is the number of
/// entries.
proof fn lemma_dom_len(s: Seq<(String, JsonValue)>)
    requires
        sorted_keys(s),
    ensures
        entries_view(s).dom().len() == s.len(),
    decreases s.len(),
{
    if s.len() > 0 {
        let p = s.drop_last();
        assert(sorted_keys(p));
        lemma_dom_len(p);
        lemma_entries_view(p);
        assert(!entries_view(p).contains_key(s.last().0@)) by {
            if entries_view(p).contains_key(s.last().0@) {
                let i = choose|i: int| 0 <= i < p.len() && p[i].0@ == s.last().0@;
                assert(s[i] == p[i]);
                lemma_lt_irreflexive(s.last().0@);
            }
        }
    }
}

/// Replacing the value at a position with another under the same key.
proof fn lemma_same_keys_replace(
    old_s: Seq<(String, JsonValue)>,
    new_s: Seq<(String, JsonValue)>,
    i: int,
)
    requires
        sorted_keys(old_s),
        sorted_keys(new_s),
        0 <= i < old_s.len(),
        new_s.len() == old_s.len(),
        forall|j: int| 0 <= j < old_s.len() && j != i ==> #[trigger] new_s[j] == old_s[j],
        new_s[i].0@ == old_s[i].0@,
    ensures
        entries_view(new_s) =~= entries_view(old_s).insert(new_s[i].0@, value_view(new_s[i].1)),
{
    lemma_entries_view(old_s);
    lemma_entries_view(new_s);
    let m = entries_view(old_s).insert(new_s[i].0@, value_view(new_s[i].1));
    assert forall|k: Seq<char>| #[trigger] entries_view(new_s).contains_key(k) <==> m.contains_key(k) by {
        if entries_view(new_s).contains_key(k) {
            let j = choose|j: int| 0 <= j < new_s.len() && new_s[j].0@ == k;
            if j != i {
                assert(old_s[j] == new_s[j]);
            }
        }
        if m.contains_key(k) && k != new_s[i].0@ {
            let j = choose|j: int| 0 <= j < old_s.len() && old_s[j].0@ == k;
            assert(new_s[j] == old_s[j]);
        }
    }
    assert forall|k: Seq<char>| #[trigger] entries_view(new_s).contains_key(k) implies entries_view(
        new_s,
    )[k] == m[k] by {
        let j = choose|j: int| 0 <= j < new_s.len() && new_s[j].0@ == k;
        if j != i {
            assert(old_s[j] == new_s[j]);
            assert(k != new_s[i].0@) by {
                if j < i {
                    lemma_lt_irreflexive(k);
                } else {
                    lemma_lt_irreflexive(k);
                }
            }
        }
    }
}

/// Inserting a new entry at a position.
proof fn lemma_insert_view(old_s: Seq<(String, JsonValue)>, new_s: Seq<(String, JsonValue)>, i: int)
    requires
        sorted_keys(old_s),
        sorted_keys(new_s),
        0 <= i <= old_s.len(),
        new_s == old_s.insert(i, new_s[i]),
    ensures
        entries_view(new_s) =~= entries_view(old_s).insert(new_s[i].0@, value_view(new_s[i].1)),
{
    lemma_entries_view(old_s);
    lemma_entries_view(new_s);
    let m = entries_view(old_s).insert(new_s[i].0@, value_view(new_s[i].1));
    assert forall|k: Seq<char>| #[trigger] entries_view(new_s).contains_key(k) <==> m.contains_key(k) by {
        if entries_view(new_s).contains_key(k) {
            let j = choose|j: int| 0 <= j < new_s.len() && new_s[j].0@ == k;
            if j < i {
                assert(old_s[j] == new_s[j]);
            } else if j > i {
                assert(old_s[j - 1] == new_s[j]);
            }
        }
        if m.contains_key(k) && k != new_s[i].0@ {
            let j = choose|j: int| 0 <= j < old_s.len() && old_s[j].0@ == k;
            if j < i {
                assert(new_s[j] == old_s[j]);
            } else {
                assert(new_s[j + 1] == old_s[j]);
            }
        }
    }
    assert forall|k: Seq<char>| #[trigger] entries_view(new_s).contains_key(k) implies entries_view(
        new_s,
    )[k] == m[k] by {
        let j = choose|j: int| 0 <= j < new_s.len() && new_s[j].0@ == k;
        if j != i {
            assert(k != new_s[i].0@) by {
                lemma_lt_irreflexive(k);
            }
            if j < i {
                assert(old_s[j] == new_s[j]);
            } else {
                assert(old_s[j - 1] == new_s[j]);
            }
        }
    }
}

/// Removing the entry at a position.
proof fn lemma_remove_view(old_s: Seq<(String, JsonValue)>, new_s: Seq<(String, JsonValue)>, i: int)
    requires
        sorted_keys(old_s),
        sorted_keys(new_s),
        0 <= i < old_s.len(),
        new_s == old_s.remove(i),
    ensures
        entries_view(new_s) =~= entries_view(old_s).remove(old_s[i].0@),
{
    lemma_entries_view(old_s);
    lemma_entries_view(new_s);
    let m = entries_view(old_s).remove(old_s[i].0@);
    assert forall|k: Seq<char>| #[trigger] entries_view(new_s).contains_key(k) <==> m.contains_key(k) by {
        if entries_view(new_s).contains_key(k) {
            let j = choose|j: int| 0 <= j < new_s.len() && new_s[j].0@ == k;
            if j < i {
                assert(old_s[j] == new_s[j]);
            } else {
                assert(old_s[j + 1] == new_s[j]);
            }
            assert(k != old_s[i].0@) by {
                lemma_lt_irreflexive(k);
            }
        }
        if m.contains_key(k) {
            let j = choose|j: int| 0 <= j < old_s.len() && old_s[j].0@ == k;
            if j < i {
                assert(new_s[j] == old_s[j]);
            } else {
                assert(new_s[j - 1] == old_s[j]);
            }
        }
    }
    assert forall|k: Seq<char>| #[trigger] entries_view(new_s).contains_key(k) implies entries_view(
        new_s,
    )[k] == m[k] by {
        let j = choose|j: int| 0 <= j < new_s.len() && new_s[j].0@ == k;
        if j < i {
            assert(old_s[j] == new_s[j]);
        } else {
            assert(old_s[j + 1] == new_s[j]);
        }
    }
}

impl JsonNumber {
    /// A deep copy.
    pub fn copy(&self) -> (r: JsonNumber)
        ensures
            r.text@ == self.text@,
            r.display@ == self.display@,
    {
        JsonNumber { text: copy_string(&self.text), display: copy_string(&self.display) }
    }
}

impl JsonValue {
    /// A deep copy.
    pub fn copy(&self) -> (r: JsonValue)
        ensures
            r@ == self@,
        decreases self,
    {
        match self {
            JsonValue::Null => JsonValue::Null,
            JsonValue::Bool(b) => JsonValue::Bool(*b),
            JsonValue::Number(n) => JsonValue::Number(n.copy()),
            JsonValue::Str(s) => JsonValue::Str(copy_string(s)),
            JsonValue::Array(a) => {
                assert(decreases_to!(*self => *a));
                let mut r: Vec<JsonValue> = Vec::new();
                let mut i: usize = 0;
                while i < a.len()
                    invariant
                        decreases_to!(*self => *a),
                        i <= a@.len(),
                        r@.len() == i,
                        forall|j: int| 0 <= j < i ==> value_view(#[trigger] r@[j]) == value_view(a@[j]),
                    decreases a@.len() - i,
                {
                    proof {
                        assert(decreases_to!(*a => a@));
                        assert(decreases_to!(a@ => a@[i as int]));
                        assert(decreases_to!(*self => a@[i as int]));
                    }
                    let v = a[i].copy();
                    r.push(v);
                    i = i + 1;
                }
                proof {
                    lemma_values_view_congruent(r@, a@);
                }
                JsonValue::Array(r)
            },
            JsonValue::Object(m) => JsonValue::Object(m.copy()),
        }
    }
}

/// Element-wise equal views give equal views of the sequences.
proof fn lemma_values_view_congruent(a: Seq<JsonValue>, b: Seq<JsonValue>)
    requires
        a.len() == b.len(),
        forall|j: int| 0 <= j < a.len() ==> value_view(#[trigger] a[j]) == value_view(b[j]),
    ensures
        values_view(a) == values_view(b),
    decreases a.len(),
{
    if a.len() > 0 {
        lemma_values_view_congruent(a.drop_last(), b.drop_last());
    }
}

/// The JSON string literal that serde_json writes for the text `s`: the
/// text quoted, with `"`, `\` and the control characters escaped.
pub uninterp spec fn quoted(s: Seq<char>) -> Seq<char>;

/// `Display` of `serde_json::Value::String`: the JSON string literal of a
/// text. The contract names it.
#[verifier::external_body]
fn json_string_literal(s: &str) -> (r: String)
    ensures
        r@ == quoted(s@),
{
    serde_json::Value::String(s.to_string()).to_string()
}

/// The compact JSON text of a value, objects with their keys in ascending
/// order (what `Display` of a JSON value writes).
pub open spec fn json_text(v: JsonV) -> Seq<char>
    decreases v, 0int,
{
    match v {
        JsonV::Null => seq!['n', 'u', 'l', 'l'],
        JsonV::Bool(b) => if b {
            seq!['t', 'r', 'u', 'e']
        } else {
            seq!['f', 'a', 'l', 's', 'e']
        },
        JsonV::Number(t, _) => t,
        JsonV::Str(s) => quoted(s),
        JsonV::Array(a) => seq!['['] + json_items(a, a.len() as int) + seq![']'],
        JsonV::Object(m) => seq!['{'] + json_fields(m, key_order(m), key_order(m).len() as int) + seq!['}'],
    }
}

/// The first `n` items of an array, separated by commas.
pub open spec fn json_items(a: Seq<JsonV>, n: int) -> Seq<char>
    decreases a, n,
{
    if n <= 0 || n > a.len() {
        Seq::empty()
    } else if n == 1 {
        json_text(a[0])
    } else {
        json_items(a, n - 1) + seq![','] + json_text(a[n - 1])
    }
}

/// One `"key":value` member.
pub open spec fn json_member(m: Map<Seq<char>, JsonV>, k: Seq<char>) -> Seq<char>
    decreases m, 0int,
{
    if m.dom().finite() && m.contains_key(k) {
        quoted(k) + seq![':'] + json_text(m[k])
    } else {
        Seq::empty()
    }
}

/// The members for the first `n` keys of `ks`, separated by commas.
pub open spec fn json_fields(m: Map<Seq<char>, JsonV>, ks: Seq<Seq<char>>, n: int) -> Seq<char>
    decreases m, 1int, n,
{
    if n <= 0 || n > ks.len() {
        Seq::empty()
    } else if n == 1 {
        json_member(m, ks[0])
    } else {
        json_fields(m, ks, n - 1) + seq![','] + json_member(m, ks[n - 1])
    }
}

/// Appends `s` as a JSON string literal.
pub fn push_quoted(out: &mut String, s: &str)
    ensures
        final(out)@ == old(out)@ + quoted(s@),
{
    let lit = json_string_literal(s);
    out.append(lit.as_str());
}

/// Appends the JSON text of `v`.
pub fn push_json_text(out: &mut String, v: &JsonValue)
    ensures
        final(out)@ == old(out)@ + json_text(v@),
    decreases v,
{
    let ghost start = out@;
    match v {
        JsonValue::Null => {
            out.append("null");
            proof { reveal_strlit("null"); }
        },
        JsonValue::Bool(b) => {
            if *b {
                out.append("true");
                proof { reveal_strlit("true"); }
            } else {
                out.append("false");
                proof { reveal_strlit("false"); }
            }
        },
        JsonValue::Number(n) => {
            out.append(n.text.as_str());
        },
        JsonValue::Str(s) => {
            push_quoted(out, s.as_str());
        },
        JsonValue::Array(a) => {
            push_char(out, '[');
            let mut i: usize = 0;
            while i < a.len()
                invariant
                    decreases_to!(*v => *a),
                    *v == JsonValue::Array(*a),
                    i <= a@.len(),
                    out@ == start + seq!['['] + json_items(values_view(a@), i as int),
                decreases a@.len() - i,
            {
                proof {
                    assert(decreases_to!(*a => a@));
                    assert(decreases_to!(a@ => a@[i as int]));
                    lemma_values_view_index(a@, i as int);
                }
                if i > 0 {
                    push_char(out, ',');
                }
                push_json_text(out, &a[i]);
                proof {
                    lemma_values_view_len(a@);
                    if i > 0 {
                        assert(out@ =~= start + seq!['['] + json_items(values_view(a@), i + 1));
                    } else {
                        assert(out@ =~= start + seq!['['] + json_items(values_view(a@), i + 1));
                    }
                }
                i = i + 1;
            }
            push_char(out, ']');
            proof {
                lemma_values_view_len(a@);
                assert(out@ =~= start + json_text(v@));
            }
        },
        JsonValue::Object(m) => {
            proof {
                use_type_invariant(m);
                m.lemma_keys();
            }
            push_char(out, '{');
            let n = m.len();
            let mut i: usize = 0;
            while i < n
                invariant
                    decreases_to!(*v => *m),
                    *v == JsonValue::Object(*m),
                    n == m.keys().len(),
                    key_order(m@) == m.keys(),
                    m@.dom().finite(),
                    i <= n,
                    out@ == start + seq!['{'] + json_fields(m@, m.keys(), i as int),
                decreases n - i,
            {
                let (k, val) = m.entry_at(i);
                if i > 0 {
                    push_char(out, ',');
                }
                push_quoted(out, k.as_str());
                push_char(out, ':');
                push_json_text(out, val);
                proof {
                    assert(json_member(m@, m.keys()[i as int]) == quoted(k@) + seq![':'] + json_text(val@));
                    assert(out@ =~= start + seq!['{'] + json_fields(m@, m.keys(), i + 1));
                }
                i = i + 1;
            }
            push_char(out, '}');
            proof {
                assert(out@ =~= start + json_text(v@));
            }
        },
    }
}

/// The views of a sequence have its length.
pub proof fn lemma_values_view_len(s: Seq<JsonValue>)
    ensures
        values_view(s).len() == s.len(),
    decreases s.len(),
{
    if s.len() > 0 {
        lemma_values_view_len(s.drop_last());
    }
}

/// The view of an element is the element of the views.
pub proof fn lemma_values_view_index(s: Seq<JsonValue>, i: int)
    requires
        0 <= i < s.len(),
    ensures
        values_view(s)[i] == value_view(s[i]),
        values_view(s).len() == s.len(),
    decreases s.len(),
{
    lemma_values_view_len(s);
    if i < s.len() - 1 {
        lemma_values_view_index(s.drop_last(), i);
    }
}

} // verus!

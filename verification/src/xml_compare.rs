//! Comparing CoT XML by meaning rather than by text: times are compared
//! with the UTC offset `+00:00` and the designator `Z` taken as the same.
use vstd::prelude::*;
use crate::text::{chars_of, str_eq, string_from_chars};

verus! {

/// `s` ends with `p`.
pub open spec fn ends_with(s: Seq<char>, p: Seq<char>) -> bool {
    p.len() <= s.len() && s.subrange(s.len() - p.len(), s.len() as int) == p
}

/// A datetime text in a consistent form: one that ends with `+00:00` (and
/// not with `Z`) is written with `Z` in its place; every other text is kept.
pub open spec fn normalized_datetime(s: Seq<char>) -> Seq<char> {
    if ends_with(s, seq!['Z']) {
        s
    } else if (s.contains('+') || s.contains('-')) && ends_with(s, "+00:00"@) {
        s.subrange(0, s.len() - 6) + seq!['Z']
    } else {
        s
    }
}

/// Writes a datetime text in a consistent form (see `normalized_datetime`).
pub fn normalize_datetime(datetime: &str) -> (r: String)
    ensures
        r@ == normalized_datetime(datetime@),
{
    proof {
        reveal_strlit("+00:00");
    }
    let c = chars_of(datetime);
    let n = c.len();
    if n > 0 && c[n - 1] == 'Z' {
        assert(c@.subrange(n - 1, n as int) =~= seq!['Z']);
        return string_from_chars(&c);
    }
    proof {
        if n > 0 {
            assert(c@.subrange(n - 1, n as int)[0] == c@[n - 1]);
        }
    }
    let mut has_sign = false;
    let mut i: usize = 0;
    while i < n
        invariant
            n == c@.len(),
            i <= n,
            has_sign == exists|j: int| 0 <= j < i && (c@[j] == '+' || c@[j] == '-'),
        decreases n - i,
    {
        if c[i] == '+' || c[i] == '-' {
            has_sign = true;
        }
        i = i + 1;
    }
    proof {
        if has_sign {
            let j = choose|j: int| 0 <= j < n && (c@[j] == '+' || c@[j] == '-');
            if c@[j] == '+' {
                assert(c@.contains('+'));
            } else {
                assert(c@.contains('-'));
            }
        }
        if c@.contains('+') {
            let j = choose|j: int| 0 <= j < c@.len() && c@[j] == '+';
            assert(has_sign);
        }
        if c@.contains('-') {
            let j = choose|j: int| 0 <= j < c@.len() && c@[j] == '-';
            assert(has_sign);
        }
    }
    let suffix = chars_of("+00:00");
    if has_sign && n >= 6 && crate::text::matches_at(&c, n - 6, &suffix) {
        let mut r: Vec<char> = Vec::new();
        let mut j: usize = 0;
        while j < n - 6
            invariant
                n == c@.len(),
                n >= 6,
                j <= n - 6,
                r@ == c@.subrange(0, j as int),
            decreases n - 6 - j,
        {
            r.push(c[j]);
            j = j + 1;
            assert(r@ =~= c@.subrange(0, j as int));
        }
        r.push('Z');
        return string_from_chars(&r);
    }
    string_from_chars(&c)
}

/// A normalized datetime text is its own normal form.
pub proof fn lemma_normalize_idempotent(s: Seq<char>)
    ensures
        normalized_datetime(normalized_datetime(s)) == normalized_datetime(s),
{
    let t = normalized_datetime(s);
    if !ends_with(s, seq!['Z']) && (s.contains('+') || s.contains('-')) && ends_with(s, "+00:00"@) {
        assert(t.subrange(t.len() - 1, t.len() as int) =~= seq!['Z']);
    }
}

/// A time with the offset `+00:00` and the same time with the designator
/// `Z` have one normal form.
pub proof fn lemma_utc_forms_agree(s: Seq<char>)
    ensures
        normalized_datetime(s + "+00:00"@) == normalized_datetime(s + seq!['Z']),
{
    reveal_strlit("+00:00");
    let a = s + "+00:00"@;
    let b = s + seq!['Z'];
    assert(b.subrange(b.len() - 1, b.len() as int) =~= seq!['Z']);
    assert(a.subrange(a.len() - 6, a.len() as int) =~= "+00:00"@);
    assert(a[a.len() - 6] == '+');
    assert(a.contains('+'));
    assert(a.subrange(a.len() - 1, a.len() as int)[0] == '0');
    assert(a.subrange(0, a.len() - 6) =~= s);
}

/// A node of an XML document as roxmltree reads it: its id, its parent's
/// id, whether it is an element, its local name and its attributes (local
/// name and value) in order.
pub struct DomNode {
    pub id: usize,
    pub parent: Option<usize>,
    pub element: bool,
    pub name: String,
    pub attrs: Vec<(String, String)>,
}

/// The attributes of a node as pairs of texts.
pub open spec fn attr_pairs(s: Seq<(String, String)>) -> Seq<(Seq<char>, Seq<char>)> {
    s.map_values(|a: (String, String)| (a.0@, a.1@))
}

/// The view of a node.
pub struct DomNodeV {
    pub id: nat,
    pub parent: Option<nat>,
    pub element: bool,
    pub name: Seq<char>,
    pub attrs: Seq<(Seq<char>, Seq<char>)>,
}

impl View for DomNode {
    type V = DomNodeV;

    open spec fn view(&self) -> DomNodeV {
        DomNodeV {
            id: self.id as nat,
            parent: match self.parent {
                Some(p) => Some(p as nat),
                None => None,
            },
            element: self.element,
            name: self.name@,
            attrs: attr_pairs(self.attrs@),
        }
    }
}

/// The root element of the XML text `xml` and the nodes of everything in
/// it, in document order, as roxmltree reads them; none where roxmltree
/// refuses the text.
pub uninterp spec fn dom_spec(xml: Seq<char>) -> Option<(DomNodeV, Seq<DomNodeV>)>;

/// The nodes of the XML text `xml`, its root element first (see
/// `dom_spec`); none where it does not parse.
pub open spec fn dom_nodes(xml: Seq<char>) -> Option<Seq<DomNodeV>> {
    match dom_spec(xml) {
        Some(p) => Some(seq![p.0] + p.1),
        None => None,
    }
}

/// Parses XML text with `roxmltree::Document::parse` and lists the root
/// element's `descendants()` (the root element first, then everything in it
/// in document order), each with its id, its parent's id, whether it is an
/// element, its `tag_name().name()` and its attributes' `name()` and
/// `value()`; none where parsing fails. The contract names the root element
/// and the rest of the list.
#[verifier::external_body]
fn parse_dom(xml: &str) -> (r: Option<Vec<DomNode>>)
    ensures
        match r {
            Some(v) => v@.len() >= 1 && dom_spec(xml@) == Some(
                (v@[0]@, v@.subrange(1, v@.len() as int).map_values(|n: DomNode| n@)),
            ),
            None => dom_spec(xml@) is None,
        },
{
    let doc = match roxmltree::Document::parse(xml) {
        Ok(d) => d,
        Err(_) => return None,
    };
    let mut out = Vec::new();
    for n in doc.root_element().descendants() {
        let attrs = n.attributes().map(|a| (a.name().to_string(), a.value().to_string())).collect();
        let parent = n.parent().map(|p| p.id().get_usize());
        out.push(DomNode { id: n.id().get_usize(), parent, element: n.is_element(), name: n.tag_name().name().to_string(), attrs });
    }
    Some(out)
}

/// Whether an attribute holds a time.
pub open spec fn is_time_attr(k: Seq<char>) -> bool {
    k == "time"@ || k == "start"@ || k == "stale"@
}

/// The value of attribute `k` as compared: a time is normalized.
pub open spec fn compared_value(k: Seq<char>, v: Seq<char>) -> Seq<char> {
    if is_time_attr(k) {
        normalized_datetime(v)
    } else {
        v
    }
}

/// The compared value of attribute `k` among the attributes `a`; where the
/// name occurs more than once the last occurrence counts.
pub open spec fn attr_lookup(a: Seq<(Seq<char>, Seq<char>)>, k: Seq<char>) -> Option<Seq<char>>
    decreases a.len(),
{
    if a.len() == 0 {
        None
    } else if a.last().0 == k {
        Some(compared_value(k, a.last().1))
    } else {
        attr_lookup(a.drop_last(), k)
    }
}

/// Two attribute lists name the same attributes with the same compared
/// values, in whatever order.
pub open spec fn attrs_agree(a: Seq<(Seq<char>, Seq<char>)>, b: Seq<(Seq<char>, Seq<char>)>) -> bool {
    forall|k: Seq<char>| #[trigger] attr_lookup(a, k) == attr_lookup(b, k)
}

/// The element children of node `i` among the nodes from `j` on, in order.
pub open spec fn kids_from(a: Seq<DomNodeV>, i: int, j: int) -> Seq<int>
    decreases a.len() - j,
{
    if j >= a.len() || j < 0 {
        Seq::empty()
    } else {
        let rest = kids_from(a, i, j + 1);
        if a[j].element && a[j].parent == Some(a[i].id) {
            seq![j] + rest
        } else {
            rest
        }
    }
}

/// The element children of node `i`, in order.
pub open spec fn children(a: Seq<DomNodeV>, i: int) -> Seq<int> {
    kids_from(a, i, i + 1)
}

/// How many of the nodes `c` of `a` have name `n`.
pub open spec fn count_named(a: Seq<DomNodeV>, c: Seq<int>, n: Seq<char>) -> nat
    decreases c.len(),
{
    if c.len() == 0 {
        0
    } else {
        count_named(a, c.drop_last(), n) + if a[c.last()].name == n {
            1nat
        } else {
            0nat
        }
    }
}

/// Two attribute lists agree in order: the same names, one by one, with
/// the same compared values.
pub open spec fn attrs_agree_in_order(a: Seq<(Seq<char>, Seq<char>)>, b: Seq<(Seq<char>, Seq<char>)>) -> bool {
    &&& a.len() == b.len()
    &&& forall|p: int|
        0 <= p < a.len() ==> #[trigger] a[p].0 == b[p].0 && compared_value(a[p].0, a[p].1) == compared_value(
            b[p].0,
            b[p].1,
        )
}

/// How attributes are compared: in order where the comparison is strict,
/// else as maps of names to compared values.
pub open spec fn attrs_compared(a: Seq<(Seq<char>, Seq<char>)>, b: Seq<(Seq<char>, Seq<char>)>, strict: bool) -> bool {
    if strict {
        attrs_agree_in_order(a, b)
    } else {
        attrs_agree(a, b)
    }
}

/// Whether node `i` of `a` and node `j` of `b` are equal by meaning: the
/// same name and attributes (times normalized; order ignored unless the
/// comparison is strict), and equal children: for `detail` elements, the
/// same number of children of each name, each child of `i` equal to a child
/// of `j` of its name and each child of `j` equal to a child of `i` of its
/// name; for other elements, equal children in order.
pub open spec fn dom_eq(a: Seq<DomNodeV>, i: int, b: Seq<DomNodeV>, j: int, strict: bool) -> bool
    decreases (a.len() - i) + (b.len() - j), 2int, 0int, 0int,
{
    if !(0 <= i < a.len() && 0 <= j < b.len()) {
        false
    } else if a[i].name != b[j].name || !attrs_compared(a[i].attrs, b[j].attrs, strict) {
        false
    } else {
        let ca = children(a, i);
        let cb = children(b, j);
        if a[i].name == "detail"@ {
            &&& forall|n: Seq<char>| #[trigger] count_named(a, ca, n) == count_named(b, cb, n)
            &&& all_matched(a, i, ca, b, j, cb, ca.len() as int, strict)
            &&& all_matched(b, j, cb, a, i, ca, cb.len() as int, strict)
        } else {
            ca.len() == cb.len() && all_paired(a, i, ca, b, j, cb, ca.len() as int, strict)
        }
    }
}

/// Each of the first `k` children `ca` of node `i` equals the child `cb`
/// of node `j` at its position.
pub open spec fn all_paired(
    a: Seq<DomNodeV>,
    i: int,
    ca: Seq<int>,
    b: Seq<DomNodeV>,
    j: int,
    cb: Seq<int>,
    k: int,
    strict: bool,
) -> bool
    decreases (a.len() - i) + (b.len() - j), 1int, k, 0int,
{
    if k <= 0 || k > ca.len() || k > cb.len() {
        k <= 0
    } else {
        &&& all_paired(a, i, ca, b, j, cb, k - 1, strict)
        &&& i < ca[k - 1] < a.len()
        &&& j < cb[k - 1] < b.len()
        &&& dom_eq(a, ca[k - 1], b, cb[k - 1], strict)
    }
}

/// Each of the first `k` children `ca` of node `i` equals some child in
/// `cb` (of node `j`) of its name.
pub open spec fn all_matched(
    a: Seq<DomNodeV>,
    i: int,
    ca: Seq<int>,
    b: Seq<DomNodeV>,
    j: int,
    cb: Seq<int>,
    k: int,
    strict: bool,
) -> bool
    decreases (a.len() - i) + (b.len() - j), 1int, k, 0int,
{
    if k <= 0 || k > ca.len() {
        k <= 0
    } else {
        all_matched(a, i, ca, b, j, cb, k - 1, strict) && any_match(a, i, ca[k - 1], b, j, cb, cb.len() as int, strict)
    }
}

/// Some of the first `m` nodes `cb` (children of node `j`) has the name of
/// node `x` (a child of node `i`) and equals it.
pub open spec fn any_match(
    a: Seq<DomNodeV>,
    i: int,
    x: int,
    b: Seq<DomNodeV>,
    j: int,
    cb: Seq<int>,
    m: int,
    strict: bool,
) -> bool
    decreases (a.len() - i) + (b.len() - j), 0int, 0int, m,
{
    if m <= 0 || m > cb.len() || !(i < x < a.len()) {
        false
    } else {
        ||| any_match(a, i, x, b, j, cb, m - 1, strict)
        ||| (j < cb[m - 1] < b.len() && b[cb[m - 1]].name == a[x].name && dom_eq(a, x, b, cb[m - 1], strict))
    }
}

/// Whether two XML texts are equal by meaning (see `dom_eq`): both parse,
/// and their root elements are equal.
pub open spec fn xml_eq(x: Seq<char>, y: Seq<char>, strict: bool) -> bool {
    match (dom_nodes(x), dom_nodes(y)) {
        (Some(a), Some(b)) => dom_eq(a, 0, b, 0, strict),
        _ => false,
    }
}

/// The views of a list of nodes.
pub open spec fn nodes_view(v: Seq<DomNode>) -> Seq<DomNodeV> {
    v.map_values(|n: DomNode| n@)
}

/// Indices as integers.
pub open spec fn ints(v: Seq<usize>) -> Seq<int> {
    v.map_values(|x: usize| x as int)
}

proof fn lemma_lookup_absent(a: Seq<(Seq<char>, Seq<char>)>, k: Seq<char>)
    requires
        forall|p: int| 0 <= p < a.len() ==> a[p].0 != k,
    ensures
        attr_lookup(a, k) is None,
    decreases a.len(),
{
    if a.len() > 0 {
        assert(a.last().0 == a[a.len() - 1].0);
        lemma_lookup_absent(a.drop_last(), k);
    }
}

proof fn lemma_kids_range(a: Seq<DomNodeV>, i: int, j: int)
    requires
        0 <= j,
    ensures
        forall|p: int| 0 <= p < kids_from(a, i, j).len() ==> j <= #[trigger] kids_from(a, i, j)[p] < a.len(),
    decreases a.len() - j,
{
    if j < a.len() {
        lemma_kids_range(a, i, j + 1);
        let rest = kids_from(a, i, j + 1);
        if a[j].element && a[j].parent == Some(a[i].id) {
            assert forall|p: int| 0 <= p < kids_from(a, i, j).len() implies j <= #[trigger] kids_from(
                a,
                i,
                j,
            )[p] < a.len() by {
                if p > 0 {
                    assert(kids_from(a, i, j)[p] == rest[p - 1]);
                }
            }
        }
    }
}

proof fn lemma_count_absent(a: Seq<DomNodeV>, c: Seq<int>, n: Seq<char>)
    requires
        forall|p: int| 0 <= p < c.len() ==> a[c[p]].name != n,
    ensures
        count_named(a, c, n) == 0,
    decreases c.len(),
{
    if c.len() > 0 {
        lemma_count_absent(a, c.drop_last(), n);
    }
}

proof fn lemma_count_bound(a: Seq<DomNodeV>, c: Seq<int>, n: Seq<char>)
    ensures
        count_named(a, c, n) <= c.len(),
    decreases c.len(),
{
    if c.len() > 0 {
        lemma_count_bound(a, c.drop_last(), n);
    }
}

proof fn lemma_matched_prefix(
    a: Seq<DomNodeV>,
    i: int,
    ca: Seq<int>,
    b: Seq<DomNodeV>,
    j: int,
    cb: Seq<int>,
    k: int,
    m: int,
    strict: bool,
)
    requires
        0 <= k <= m <= ca.len(),
        all_matched(a, i, ca, b, j, cb, m, strict),
    ensures
        all_matched(a, i, ca, b, j, cb, k, strict),
    decreases m - k,
{
    if k < m {
        lemma_matched_prefix(a, i, ca, b, j, cb, k, m - 1, strict);
    }
}

proof fn lemma_paired_prefix(
    a: Seq<DomNodeV>,
    i: int,
    ca: Seq<int>,
    b: Seq<DomNodeV>,
    j: int,
    cb: Seq<int>,
    k: int,
    m: int,
    strict: bool,
)
    requires
        0 <= k <= m <= ca.len(),
        m <= cb.len(),
        all_paired(a, i, ca, b, j, cb, m, strict),
    ensures
        all_paired(a, i, ca, b, j, cb, k, strict),
    decreases m - k,
{
    if k < m {
        lemma_paired_prefix(a, i, ca, b, j, cb, k, m - 1, strict);
    }
}

/// The compared value of attribute `k` among `attrs`.
fn lookup_attr(attrs: &Vec<(String, String)>, k: &str) -> (r: Option<String>)
    ensures
        match r {
            Some(v) => attr_lookup(attr_pairs(attrs@), k@) == Some(v@),
            None => attr_lookup(attr_pairs(attrs@), k@) is None,
        },
{
    let ghost s = attr_pairs(attrs@);
    assert(s.subrange(0, attrs@.len() as int) =~= s);
    let mut i: usize = attrs.len();
    while i > 0
        invariant
            i <= attrs@.len(),
            s == attr_pairs(attrs@),
            attr_lookup(s, k@) == attr_lookup(s.subrange(0, i as int), k@),
        decreases i,
    {
        let sub = Ghost(s.subrange(0, i as int));
        assert(sub@.last() == s[i - 1]);
        if str_eq(attrs[i - 1].0.as_str(), k) {
            let v = attrs[i - 1].1.as_str();
            proof {
                reveal_strlit("time");
                reveal_strlit("start");
                reveal_strlit("stale");
            }
            if str_eq(k, "time") || str_eq(k, "start") || str_eq(k, "stale") {
                return Some(normalize_datetime(v));
            }
            return Some(crate::text::string_of(v));
        }
        assert(sub@.drop_last() =~= s.subrange(0, i - 1));
        i = i - 1;
    }
    assert(s.subrange(0, 0) =~= Seq::<(Seq<char>, Seq<char>)>::empty());
    None
}

fn same_lookup(x: &Option<String>, y: &Option<String>) -> (r: bool)
    ensures
        r == (match (x, y) {
            (Some(a), Some(b)) => a@ == b@,
            (None, None) => true,
            _ => false,
        }),
{
    match (x, y) {
        (Some(a), Some(b)) => str_eq(a.as_str(), b.as_str()),
        (None, None) => true,
        _ => false,
    }
}

/// Whether two attribute lists agree (see `attrs_agree`).
pub fn attrs_match(a: &Vec<(String, String)>, b: &Vec<(String, String)>) -> (r: bool)
    ensures
        r == attrs_agree(attr_pairs(a@), attr_pairs(b@)),
{
    let ghost sa = attr_pairs(a@);
    let ghost sb = attr_pairs(b@);
    let mut p: usize = 0;
    while p < a.len()
        invariant
            sa == attr_pairs(a@),
            sb == attr_pairs(b@),
            p <= a@.len(),
            forall|q: int| 0 <= q < p ==> attr_lookup(sa, #[trigger] sa[q].0) == attr_lookup(sb, sa[q].0),
        decreases a@.len() - p,
    {
        let k = a[p].0.as_str();
        let x = lookup_attr(a, k);
        let y = lookup_attr(b, k);
        assert(sa[p as int].0 == k@);
        if !same_lookup(&x, &y) {
            return false;
        }
        p = p + 1;
    }
    let mut q: usize = 0;
    while q < b.len()
        invariant
            sa == attr_pairs(a@),
            sb == attr_pairs(b@),
            q <= b@.len(),
            forall|t: int| 0 <= t < sa.len() ==> attr_lookup(sa, #[trigger] sa[t].0) == attr_lookup(sb, sa[t].0),
            forall|t: int| 0 <= t < q ==> attr_lookup(sa, #[trigger] sb[t].0) == attr_lookup(sb, sb[t].0),
        decreases b@.len() - q,
    {
        let k = b[q].0.as_str();
        let x = lookup_attr(a, k);
        let y = lookup_attr(b, k);
        assert(sb[q as int].0 == k@);
        if !same_lookup(&x, &y) {
            return false;
        }
        q = q + 1;
    }
    assert forall|k: Seq<char>| #[trigger] attr_lookup(sa, k) == attr_lookup(sb, k) by {
        if exists|t: int| 0 <= t < sa.len() && sa[t].0 == k {
            let t = choose|t: int| 0 <= t < sa.len() && sa[t].0 == k;
            assert(attr_lookup(sa, sa[t].0) == attr_lookup(sb, sa[t].0));
        } else if exists|t: int| 0 <= t < sb.len() && sb[t].0 == k {
            let t = choose|t: int| 0 <= t < sb.len() && sb[t].0 == k;
            assert(attr_lookup(sa, sb[t].0) == attr_lookup(sb, sb[t].0));
        } else {
            lemma_lookup_absent(sa, k);
            lemma_lookup_absent(sb, k);
        }
    }
    true
}

/// The element children of node `i`, in order, by their indices.
fn child_indices(nodes: &Vec<DomNode>, i: usize) -> (r: Vec<usize>)
    requires
        i < nodes@.len(),
    ensures
        ints(r@) == children(nodes_view(nodes@), i as int),
{
    let ghost a = nodes_view(nodes@);
    let mut r: Vec<usize> = Vec::new();
    let n = nodes.len();
    let mut j: usize = i + 1;
    let id = nodes[i].id;
    assert(ints(r@) =~= Seq::<int>::empty());
    while j < nodes.len()
        invariant
            a == nodes_view(nodes@),
            i < nodes@.len(),
            id == nodes@[i as int].id,
            i + 1 <= j <= nodes@.len(),
            ints(r@) + kids_from(a, i as int, j as int) == children(a, i as int),
        decreases nodes@.len() - j,
    {
        let ghost before = ints(r@);
        let is_kid = nodes[j].element && match nodes[j].parent {
            Some(p) => p == id,
            None => false,
        };
        assert(a[j as int] == nodes@[j as int]@);
        assert(a[i as int] == nodes@[i as int]@);
        if is_kid {
            r.push(j);
            assert(ints(r@) =~= before.push(j as int));
            assert(before + kids_from(a, i as int, j as int) =~= ints(r@) + kids_from(a, i as int, j + 1));
        }
        j = j + 1;
    }
    assert(kids_from(a, i as int, j as int) =~= Seq::<int>::empty());
    assert(ints(r@) + Seq::<int>::empty() =~= ints(r@));
    r
}

/// How many of the nodes `c` have the name `n`.
fn count_name(nodes: &Vec<DomNode>, c: &Vec<usize>, n: &str) -> (r: usize)
    requires
        forall|p: int| 0 <= p < c@.len() ==> #[trigger] c@[p] < nodes@.len(),
    ensures
        r == count_named(nodes_view(nodes@), ints(c@), n@),
{
    let ghost a = nodes_view(nodes@);
    let ghost cs = ints(c@);
    let mut r: usize = 0;
    let mut k: usize = 0;
    assert(cs.take(0) =~= Seq::<int>::empty());
    while k < c.len()
        invariant
            a == nodes_view(nodes@),
            cs == ints(c@),
            k <= c@.len(),
            r <= k,
            r == count_named(a, cs.take(k as int), n@),
            forall|p: int| 0 <= p < c@.len() ==> #[trigger] c@[p] < nodes@.len(),
        decreases c@.len() - k,
    {
        assert(cs.take(k + 1).drop_last() =~= cs.take(k as int));
        assert(cs.take(k + 1).last() == c@[k as int] as int);
        assert(a[c@[k as int] as int] == nodes@[c@[k as int] as int]@);
        if str_eq(nodes[c[k]].name.as_str(), n) {
            r = r + 1;
        }
        k = k + 1;
    }
    assert(cs.take(k as int) =~= cs);
    r
}

/// Whether the nodes `ca` of `a` and the nodes `cb` of `b` hold the same
/// number of nodes of each name.
fn counts_agree(a: &Vec<DomNode>, ca: &Vec<usize>, b: &Vec<DomNode>, cb: &Vec<usize>) -> (r: bool)
    requires
        forall|p: int| 0 <= p < ca@.len() ==> #[trigger] ca@[p] < a@.len(),
        forall|p: int| 0 <= p < cb@.len() ==> #[trigger] cb@[p] < b@.len(),
    ensures
        r == forall|n: Seq<char>|
            #[trigger] count_named(nodes_view(a@), ints(ca@), n) == count_named(nodes_view(b@), ints(cb@), n),
{
    let ghost av = nodes_view(a@);
    let ghost bv = nodes_view(b@);
    let ghost sa = ints(ca@);
    let ghost sb = ints(cb@);
    let mut p: usize = 0;
    while p < ca.len()
        invariant
            av == nodes_view(a@),
            bv == nodes_view(b@),
            sa == ints(ca@),
            sb == ints(cb@),
            p <= ca@.len(),
            forall|t: int| 0 <= t < ca@.len() ==> #[trigger] ca@[t] < a@.len(),
            forall|t: int| 0 <= t < cb@.len() ==> #[trigger] cb@[t] < b@.len(),
            forall|t: int|
                0 <= t < p ==> count_named(av, sa, #[trigger] av[sa[t]].name) == count_named(bv, sb, av[sa[t]].name),
        decreases ca@.len() - p,
    {
        let n = a[ca[p]].name.as_str();
        assert(av[sa[p as int]] == a@[ca@[p as int] as int]@);
        if count_name(a, ca, n) != count_name(b, cb, n) {
            return false;
        }
        p = p + 1;
    }
    let mut q: usize = 0;
    while q < cb.len()
        invariant
            av == nodes_view(a@),
            bv == nodes_view(b@),
            sa == ints(ca@),
            sb == ints(cb@),
            q <= cb@.len(),
            forall|t: int| 0 <= t < ca@.len() ==> #[trigger] ca@[t] < a@.len(),
            forall|t: int| 0 <= t < cb@.len() ==> #[trigger] cb@[t] < b@.len(),
            forall|t: int|
                0 <= t < sa.len() ==> count_named(av, sa, #[trigger] av[sa[t]].name) == count_named(bv, sb, av[sa[t]].name),
            forall|t: int|
                0 <= t < q ==> count_named(av, sa, #[trigger] bv[sb[t]].name) == count_named(bv, sb, bv[sb[t]].name),
        decreases cb@.len() - q,
    {
        let n = b[cb[q]].name.as_str();
        assert(bv[sb[q as int]] == b@[cb@[q as int] as int]@);
        if count_name(a, ca, n) != count_name(b, cb, n) {
            return false;
        }
        q = q + 1;
    }
    assert forall|n: Seq<char>| #[trigger] count_named(av, sa, n) == count_named(bv, sb, n) by {
        if exists|t: int| 0 <= t < sa.len() && av[sa[t]].name == n {
            let t = choose|t: int| 0 <= t < sa.len() && av[sa[t]].name == n;
            assert(count_named(av, sa, av[sa[t]].name) == count_named(bv, sb, av[sa[t]].name));
        } else if exists|t: int| 0 <= t < sb.len() && bv[sb[t]].name == n {
            let t = choose|t: int| 0 <= t < sb.len() && bv[sb[t]].name == n;
            assert(count_named(av, sa, bv[sb[t]].name) == count_named(bv, sb, bv[sb[t]].name));
        } else {
            lemma_count_absent(av, sa, n);
            lemma_count_absent(bv, sb, n);
        }
    }
    true
}

/// The compared value of attribute `k` with value `v` (see
/// `compared_value`).
fn compared(k: &str, v: &str) -> (r: String)
    ensures
        r@ == compared_value(k@, v@),
{
    proof {
        reveal_strlit("time");
        reveal_strlit("start");
        reveal_strlit("stale");
    }
    if str_eq(k, "time") || str_eq(k, "start") || str_eq(k, "stale") {
        normalize_datetime(v)
    } else {
        crate::text::string_of(v)
    }
}

/// Whether two attribute lists agree in order (see `attrs_agree_in_order`).
pub fn attrs_match_in_order(a: &Vec<(String, String)>, b: &Vec<(String, String)>) -> (r: bool)
    ensures
        r == attrs_agree_in_order(attr_pairs(a@), attr_pairs(b@)),
{
    let ghost sa = attr_pairs(a@);
    let ghost sb = attr_pairs(b@);
    if a.len() != b.len() {
        return false;
    }
    let mut p: usize = 0;
    while p < a.len()
        invariant
            sa == attr_pairs(a@),
            sb == attr_pairs(b@),
            a@.len() == b@.len(),
            p <= a@.len(),
            forall|q: int|
                0 <= q < p ==> #[trigger] sa[q].0 == sb[q].0 && compared_value(sa[q].0, sa[q].1) == compared_value(
                    sb[q].0,
                    sb[q].1,
                ),
        decreases a@.len() - p,
    {
        assert(sa[p as int] == (a@[p as int].0@, a@[p as int].1@));
        assert(sb[p as int] == (b@[p as int].0@, b@[p as int].1@));
        if !str_eq(a[p].0.as_str(), b[p].0.as_str()) {
            proof {
                assert(!(sa[p as int].0 == sb[p as int].0 && compared_value(sa[p as int].0, sa[p as int].1)
                    == compared_value(sb[p as int].0, sb[p as int].1)));
            }
            return false;
        }
        let x = compared(a[p].0.as_str(), a[p].1.as_str());
        let y = compared(b[p].0.as_str(), b[p].1.as_str());
        if !str_eq(x.as_str(), y.as_str()) {
            proof {
                assert(!(sa[p as int].0 == sb[p as int].0 && compared_value(sa[p as int].0, sa[p as int].1)
                    == compared_value(sb[p as int].0, sb[p as int].1)));
            }
            return false;
        }
        p = p + 1;
    }
    true
}

/// Whether node `i` of the node list `a` and node `j` of `b` are equal by
/// meaning (see `dom_eq`).
pub fn nodes_equal(a: &Vec<DomNode>, i: usize, b: &Vec<DomNode>, j: usize, strict: bool) -> (r: bool)
    ensures
        r == dom_eq(nodes_view(a@), i as int, nodes_view(b@), j as int, strict),
    decreases (a@.len() - i) + (b@.len() - j),
{
    let ghost av = nodes_view(a@);
    let ghost bv = nodes_view(b@);
    if i >= a.len() || j >= b.len() {
        return false;
    }
    assert(av[i as int] == a@[i as int]@);
    assert(bv[j as int] == b@[j as int]@);
    if !str_eq(a[i].name.as_str(), b[j].name.as_str()) {
        return false;
    }
    let same_attrs = if strict {
        attrs_match_in_order(&a[i].attrs, &b[j].attrs)
    } else {
        attrs_match(&a[i].attrs, &b[j].attrs)
    };
    if !same_attrs {
        return false;
    }
    let ca = child_indices(a, i);
    let cb = child_indices(b, j);
    let ghost sa = ints(ca@);
    let ghost sb = ints(cb@);
    proof {
        lemma_kids_range(av, i as int, i + 1);
        lemma_kids_range(bv, j as int, j + 1);
        assert forall|p: int| 0 <= p < ca@.len() implies i < #[trigger] ca@[p] < a@.len() by {
            assert(sa[p] == ca@[p] as int);
        }
        assert forall|p: int| 0 <= p < cb@.len() implies j < #[trigger] cb@[p] < b@.len() by {
            assert(sb[p] == cb@[p] as int);
        }
    }
    proof {
        reveal_strlit("detail");
    }
    if str_eq(a[i].name.as_str(), "detail") {
        if !counts_agree(a, &ca, b, &cb) {
            return false;
        }
        let mut k: usize = 0;
        while k < ca.len()
            invariant
                av == nodes_view(a@),
                bv == nodes_view(b@),
                sa == ints(ca@),
                sb == ints(cb@),
                i < a@.len(),
                j < b@.len(),
                k <= ca@.len(),
                forall|p: int| 0 <= p < ca@.len() ==> i < #[trigger] ca@[p] < a@.len(),
                forall|p: int| 0 <= p < cb@.len() ==> j < #[trigger] cb@[p] < b@.len(),
                all_matched(av, i as int, sa, bv, j as int, sb, k as int, strict),
                dom_eq(av, i as int, bv, j as int, strict) == (all_matched(
                    av,
                    i as int,
                    sa,
                    bv,
                    j as int,
                    sb,
                    sa.len() as int,
                    strict,
                ) && all_matched(bv, j as int, sb, av, i as int, sa, sb.len() as int, strict)),
            decreases ca@.len() - k,
        {
            let x = ca[k];
            let mut found = false;
            let mut m: usize = 0;
            while m < cb.len()
                invariant
                    av == nodes_view(a@),
                    bv == nodes_view(b@),
                    sa == ints(ca@),
                    sb == ints(cb@),
                    i < x < a@.len(),
                    j < b@.len(),
                    m <= cb@.len(),
                    forall|p: int| 0 <= p < cb@.len() ==> j < #[trigger] cb@[p] < b@.len(),
                    found == any_match(av, i as int, x as int, bv, j as int, sb, m as int, strict),
                decreases cb@.len() - m,
            {
                let y = cb[m];
                assert(sb[m as int] == y as int);
                assert(bv[y as int] == b@[y as int]@);
                assert(av[x as int] == a@[x as int]@);
                if !found && str_eq(b[y].name.as_str(), a[x].name.as_str()) && nodes_equal(a, x, b, y, strict) {
                    found = true;
                }
                m = m + 1;
            }
            assert(sa[k as int] == x as int);
            if !found {
                proof {
                    if all_matched(av, i as int, sa, bv, j as int, sb, sa.len() as int, strict) {
                        lemma_matched_prefix(av, i as int, sa, bv, j as int, sb, k + 1, sa.len() as int, strict);
                    }
                }
                return false;
            }
            k = k + 1;
        }
        let mut k: usize = 0;
        while k < cb.len()
            invariant
                av == nodes_view(a@),
                bv == nodes_view(b@),
                sa == ints(ca@),
                sb == ints(cb@),
                i < a@.len(),
                j < b@.len(),
                k <= cb@.len(),
                forall|p: int| 0 <= p < ca@.len() ==> i < #[trigger] ca@[p] < a@.len(),
                forall|p: int| 0 <= p < cb@.len() ==> j < #[trigger] cb@[p] < b@.len(),
                all_matched(bv, j as int, sb, av, i as int, sa, k as int, strict),
                dom_eq(av, i as int, bv, j as int, strict) == all_matched(
                    bv,
                    j as int,
                    sb,
                    av,
                    i as int,
                    sa,
                    sb.len() as int,
                    strict,
                ),
            decreases cb@.len() - k,
        {
            let y = cb[k];
            let mut found = false;
            let mut m: usize = 0;
            while m < ca.len()
                invariant
                    av == nodes_view(a@),
                    bv == nodes_view(b@),
                    sa == ints(ca@),
                    sb == ints(cb@),
                    j < y < b@.len(),
                    i < a@.len(),
                    m <= ca@.len(),
                    forall|p: int| 0 <= p < ca@.len() ==> i < #[trigger] ca@[p] < a@.len(),
                    found == any_match(bv, j as int, y as int, av, i as int, sa, m as int, strict),
                decreases ca@.len() - m,
            {
                let x = ca[m];
                assert(sa[m as int] == x as int);
                assert(bv[y as int] == b@[y as int]@);
                assert(av[x as int] == a@[x as int]@);
                if !found && str_eq(a[x].name.as_str(), b[y].name.as_str()) && nodes_equal(b, y, a, x, strict) {
                    found = true;
                }
                m = m + 1;
            }
            assert(sb[k as int] == y as int);
            if !found {
                proof {
                    if all_matched(bv, j as int, sb, av, i as int, sa, sb.len() as int, strict) {
                        lemma_matched_prefix(bv, j as int, sb, av, i as int, sa, k + 1, sb.len() as int, strict);
                    }
                }
                return false;
            }
            k = k + 1;
        }
        return true;
    }
    if ca.len() != cb.len() {
        return false;
    }
    let mut k: usize = 0;
    while k < ca.len()
        invariant
            av == nodes_view(a@),
            bv == nodes_view(b@),
            sa == ints(ca@),
            sb == ints(cb@),
            i < a@.len(),
            j < b@.len(),
            ca@.len() == cb@.len(),
            k <= ca@.len(),
            forall|p: int| 0 <= p < ca@.len() ==> i < #[trigger] ca@[p] < a@.len(),
            forall|p: int| 0 <= p < cb@.len() ==> j < #[trigger] cb@[p] < b@.len(),
            all_paired(av, i as int, sa, bv, j as int, sb, k as int, strict),
            dom_eq(av, i as int, bv, j as int, strict) == all_paired(
                av,
                i as int,
                sa,
                bv,
                j as int,
                sb,
                sa.len() as int,
                strict,
            ),
        decreases ca@.len() - k,
    {
        assert(sa[k as int] == ca@[k as int] as int);
        assert(sb[k as int] == cb@[k as int] as int);
        if !nodes_equal(a, ca[k], b, cb[k], strict) {
            proof {
                if all_paired(av, i as int, sa, bv, j as int, sb, sa.len() as int, strict) {
                    lemma_paired_prefix(av, i as int, sa, bv, j as int, sb, k + 1, sa.len() as int, strict);
                }
            }
            return false;
        }
        k = k + 1;
    }
    true
}

/// Whether two XML texts are equal by meaning (see `xml_eq`); in strict
/// comparison attributes must also come in the same order. A text that
/// parses equals itself.
pub fn semantic_xml_eq(xml1: &str, xml2: &str, strict: bool) -> (r: bool)
    ensures
        r == xml_eq(xml1@, xml2@, strict),
        r == xml_eq(xml2@, xml1@, strict),
        xml1@ == xml2@ && dom_spec(xml1@) is Some ==> r,
{
    proof {
        lemma_xml_eq_symmetric(xml1@, xml2@, strict);
    }
    let d1 = match parse_dom(xml1) {
        Some(d) => d,
        None => return false,
    };
    let d2 = match parse_dom(xml2) {
        Some(d) => d,
        None => return false,
    };
    proof {
        assert(nodes_view(d1@) =~= seq![d1@[0]@] + d1@.subrange(1, d1@.len() as int).map_values(|n: DomNode| n@));
        assert(nodes_view(d2@) =~= seq![d2@[0]@] + d2@.subrange(1, d2@.len() as int).map_values(|n: DomNode| n@));
        if xml1@ == xml2@ {
            lemma_dom_eq_reflexive(nodes_view(d1@), 0, strict);
        }
    }
    nodes_equal(&d1, 0, &d2, 0, strict)
}

/// `semantic_xml_eq` without strict comparison.
pub fn semantic_xml_eq_legacy(xml1: &str, xml2: &str) -> (r: bool)
    ensures
        r == xml_eq(xml1@, xml2@, false),
        r == xml_eq(xml2@, xml1@, false),
        xml1@ == xml2@ && dom_spec(xml1@) is Some ==> r,
{
    semantic_xml_eq(xml1, xml2, false)
}

proof fn lemma_any_match_self(a: Seq<DomNodeV>, i: int, x: int, cb: Seq<int>, m: int, p: int, strict: bool)
    requires
        0 <= p < m <= cb.len(),
        cb[p] == x,
        i < x < a.len(),
        dom_eq(a, x, a, x, strict),
    ensures
        any_match(a, i, x, a, i, cb, m, strict),
    decreases m,
{
    if p < m - 1 {
        lemma_any_match_self(a, i, x, cb, m - 1, p, strict);
    }
}

proof fn lemma_matched_self(a: Seq<DomNodeV>, i: int, ca: Seq<int>, k: int, strict: bool)
    requires
        0 <= k <= ca.len(),
        forall|p: int| 0 <= p < ca.len() ==> i < #[trigger] ca[p] < a.len() && dom_eq(a, ca[p], a, ca[p], strict),
    ensures
        all_matched(a, i, ca, a, i, ca, k, strict),
    decreases k,
{
    if k > 0 {
        lemma_matched_self(a, i, ca, k - 1, strict);
        let x = ca[k - 1];
        lemma_any_match_self(a, i, x, ca, ca.len() as int, k - 1, strict);
    }
}

proof fn lemma_paired_self(a: Seq<DomNodeV>, i: int, ca: Seq<int>, k: int, strict: bool)
    requires
        0 <= k <= ca.len(),
        forall|p: int| 0 <= p < ca.len() ==> i < #[trigger] ca[p] < a.len() && dom_eq(a, ca[p], a, ca[p], strict),
    ensures
        all_paired(a, i, ca, a, i, ca, k, strict),
    decreases k,
{
    if k > 0 {
        lemma_paired_self(a, i, ca, k - 1, strict);
    }
}

/// Every node equals itself by meaning.
pub proof fn lemma_dom_eq_reflexive(a: Seq<DomNodeV>, i: int, strict: bool)
    requires
        0 <= i < a.len(),
    ensures
        dom_eq(a, i, a, i, strict),
    decreases a.len() - i,
{
    let ca = children(a, i);
    lemma_kids_range(a, i, i + 1);
    assert forall|p: int| 0 <= p < ca.len() implies i < #[trigger] ca[p] < a.len() && dom_eq(
        a,
        ca[p],
        a,
        ca[p],
        strict,
    ) by {
        lemma_dom_eq_reflexive(a, ca[p], strict);
    }
    lemma_matched_self(a, i, ca, ca.len() as int, strict);
    lemma_paired_self(a, i, ca, ca.len() as int, strict);
}

/// Comparison by meaning is reflexive: XML text that parses equals itself.
pub proof fn lemma_xml_eq_reflexive(x: Seq<char>, strict: bool)
    requires
        dom_spec(x) is Some,
    ensures
        xml_eq(x, x, strict),
{
    lemma_dom_eq_reflexive(dom_nodes(x)->0, 0, strict);
}

proof fn lemma_paired_symmetric(
    a: Seq<DomNodeV>,
    i: int,
    ca: Seq<int>,
    b: Seq<DomNodeV>,
    j: int,
    cb: Seq<int>,
    k: int,
    strict: bool,
)
    requires
        0 <= i < a.len(),
        0 <= j < b.len(),
    ensures
        all_paired(a, i, ca, b, j, cb, k, strict) == all_paired(b, j, cb, a, i, ca, k, strict),
    decreases (a.len() - i) + (b.len() - j), 0int, k,
{
    if k > 0 && k <= ca.len() && k <= cb.len() {
        lemma_paired_symmetric(a, i, ca, b, j, cb, k - 1, strict);
        if i < ca[k - 1] < a.len() && j < cb[k - 1] < b.len() {
            lemma_dom_eq_symmetric(a, ca[k - 1], b, cb[k - 1], strict);
        }
    }
}

/// Comparison by meaning is symmetric between two nodes.
pub proof fn lemma_dom_eq_symmetric(a: Seq<DomNodeV>, i: int, b: Seq<DomNodeV>, j: int, strict: bool)
    ensures
        dom_eq(a, i, b, j, strict) == dom_eq(b, j, a, i, strict),
    decreases (a.len() - i) + (b.len() - j), 1int, 0int,
{
    if 0 <= i < a.len() && 0 <= j < b.len() {
        let ca = children(a, i);
        let cb = children(b, j);
        if !strict {
            assert(attrs_agree(a[i].attrs, b[j].attrs) == attrs_agree(b[j].attrs, a[i].attrs)) by {
                if attrs_agree(a[i].attrs, b[j].attrs) {
                    assert forall|k: Seq<char>| #[trigger] attr_lookup(b[j].attrs, k) == attr_lookup(a[i].attrs, k) by {
                        assert(attr_lookup(a[i].attrs, k) == attr_lookup(b[j].attrs, k));
                    }
                }
                if attrs_agree(b[j].attrs, a[i].attrs) {
                    assert forall|k: Seq<char>| #[trigger] attr_lookup(a[i].attrs, k) == attr_lookup(b[j].attrs, k) by {
                        assert(attr_lookup(b[j].attrs, k) == attr_lookup(a[i].attrs, k));
                    }
                }
            }
        } else {
            assert(attrs_agree_in_order(a[i].attrs, b[j].attrs) == attrs_agree_in_order(b[j].attrs, a[i].attrs)) by {
                if attrs_agree_in_order(a[i].attrs, b[j].attrs) {
                    assert forall|p: int| 0 <= p < b[j].attrs.len() implies #[trigger] b[j].attrs[p].0 == a[i].attrs[p].0
                        && compared_value(b[j].attrs[p].0, b[j].attrs[p].1) == compared_value(
                        a[i].attrs[p].0,
                        a[i].attrs[p].1,
                    ) by {
                        assert(a[i].attrs[p].0 == b[j].attrs[p].0);
                    }
                }
                if attrs_agree_in_order(b[j].attrs, a[i].attrs) {
                    assert forall|p: int| 0 <= p < a[i].attrs.len() implies #[trigger] a[i].attrs[p].0 == b[j].attrs[p].0
                        && compared_value(a[i].attrs[p].0, a[i].attrs[p].1) == compared_value(
                        b[j].attrs[p].0,
                        b[j].attrs[p].1,
                    ) by {
                        assert(b[j].attrs[p].0 == a[i].attrs[p].0);
                    }
                }
            }
        }
        lemma_paired_symmetric(a, i, ca, b, j, cb, ca.len() as int, strict);
        assert((forall|n: Seq<char>| #[trigger] count_named(a, ca, n) == count_named(b, cb, n)) == (forall|
            n: Seq<char>,
        | #[trigger] count_named(b, cb, n) == count_named(a, ca, n)));
    }
}

/// Comparison by meaning is symmetric: two XML texts compare the same way
/// in either order, strictly or not.
pub proof fn lemma_xml_eq_symmetric(x: Seq<char>, y: Seq<char>, strict: bool)
    ensures
        xml_eq(x, y, strict) == xml_eq(y, x, strict),
{
    if dom_spec(x) is Some && dom_spec(y) is Some {
        lemma_dom_eq_symmetric(dom_nodes(x)->0, 0, dom_nodes(y)->0, 0, strict);
    }
}

} // verus!

//! The output tree: an arena of nodes that refer to their children by index.

use vstd::prelude::*;
use crate::text::{compare_text, text_less, lemma_text_less_transitive, lemma_text_less_asymmetric, lemma_text_trichotomy};

verus! {

/// Whether a node is an element or a run of text.
#[derive(Clone, Copy, Debug, PartialEq, Eq, Structural)]
pub enum NodeKind {
    Element,
    Text,
}

/// One node of the tree. For an element `name` is its tag; for a text node it is
/// the text itself, and the node has neither attributes nor children.
#[derive(Debug)]
pub struct Node {
    pub kind: NodeKind,
    pub name: String,
    pub attributes: Vec<(String, String)>,
    pub children: Vec<usize>,
    /// Whether a pointer-enter listener is bound to this node.
    pub hover: bool,
}

/// A tree of nodes held in one arena; node 0 is the root.
#[derive(Debug)]
pub struct Tree {
    pub nodes: Vec<Node>,
}

pub type Attrs = Seq<(Seq<char>, Seq<char>)>;

/// The mathematical value of a node.
pub struct NodeView {
    pub kind: NodeKind,
    pub name: Seq<char>,
    pub attributes: Attrs,
    pub children: Seq<usize>,
    pub hover: bool,
}

pub open spec fn attrs_view(a: Seq<(String, String)>) -> Attrs {
    a.map_values(|p: (String, String)| (p.0@, p.1@))
}

impl View for Node {
    type V = NodeView;

    open spec fn view(&self) -> NodeView {
        NodeView {
            kind: self.kind,
            name: self.name@,
            attributes: attrs_view(self.attributes@),
            children: self.children@,
            hover: self.hover,
        }
    }
}

impl View for Tree {
    type V = Seq<NodeView>;

    open spec fn view(&self) -> Seq<NodeView> {
        self.nodes@.map_values(|n: Node| n@)
    }
}

/// The keys of `a` strictly increase.
pub open spec fn strictly_sorted(a: Attrs) -> bool {
    forall|i: int, j: int| 0 <= i < j < a.len() ==> text_less(#[trigger] a[i].0, #[trigger] a[j].0)
}

/// `a` holds the key `k` with the value `v`.
pub open spec fn has_attr(a: Attrs, k: Seq<char>, v: Seq<char>) -> bool {
    exists|i: int| 0 <= i < a.len() && #[trigger] a[i] == (k, v)
}

/// Sets `k` to `v` in a list kept sorted by key: an existing entry for `k` is
/// replaced, else a new one goes where the order puts it.
pub open spec fn insert_sorted(a: Attrs, k: Seq<char>, v: Seq<char>) -> Attrs
    decreases a.len(),
{
    if a.len() == 0 {
        seq![(k, v)]
    } else if a[0].0 == k {
        seq![(k, v)] + a.drop_first()
    } else if text_less(k, a[0].0) {
        seq![(k, v)] + a
    } else {
        seq![a[0]] + insert_sorted(a.drop_first(), k, v)
    }
}

/// The attribute list made from `pairs` in order, the last value of a key winning.
pub open spec fn sorted_attrs(pairs: Attrs) -> Attrs
    decreases pairs.len(),
{
    if pairs.len() == 0 {
        Seq::empty()
    } else {
        insert_sorted(sorted_attrs(pairs.drop_last()), pairs.last().0, pairs.last().1)
    }
}

/// Where `insert_sorted` puts `k`: the first index whose key does not sort before it.
proof fn lemma_insert_sorted_at(a: Attrs, k: Seq<char>, v: Seq<char>, p: int)
    requires
        0 <= p <= a.len(),
        forall|i: int| 0 <= i < p ==> text_less(#[trigger] a[i].0, k),
        p < a.len() ==> !text_less(a[p].0, k),
    ensures
        p < a.len() && a[p].0 == k ==> insert_sorted(a, k, v) == a.update(p, (k, v)),
        !(p < a.len() && a[p].0 == k) ==> insert_sorted(a, k, v) == a.insert(p, (k, v)),
    decreases p,
{
    if p == 0 {
        if a.len() > 0 && a[0].0 != k {
            crate::text::lemma_text_less_irreflexive(k);
            assert(text_less(k, a[0].0)) by {
                lemma_text_trichotomy(k, a[0].0);
            }
            assert(seq![(k, v)] + a =~= a.insert(0, (k, v)));
        }
        if a.len() > 0 && a[0].0 == k {
            assert(seq![(k, v)] + a.drop_first() =~= a.update(0, (k, v)));
        }
        if a.len() == 0 {
            assert(seq![(k, v)] =~= a.insert(0, (k, v)));
        }
    } else {
        let t = a.drop_first();
        assert forall|i: int| 0 <= i < p - 1 implies text_less(#[trigger] t[i].0, k) by {
            assert(t[i] == a[i + 1]);
        }
        lemma_insert_sorted_at(t, k, v, p - 1);
        assert(text_less(a[0].0, k));
        assert(a[0].0 != k) by {
            crate::text::lemma_text_less_irreflexive(k);
        }
        assert(!text_less(k, a[0].0)) by {
            lemma_text_less_asymmetric(a[0].0, k);
        }
        if p < a.len() && a[p].0 == k {
            assert(seq![a[0]] + t.update(p - 1, (k, v)) =~= a.update(p, (k, v)));
        } else {
            assert(seq![a[0]] + t.insert(p - 1, (k, v)) =~= a.insert(p, (k, v)));
        }
    }
}

/// Setting a key keeps a sorted list sorted, and the key then holds the value.
pub proof fn lemma_insert_sorted_sorted(a: Attrs, k: Seq<char>, v: Seq<char>)
    requires
        strictly_sorted(a),
    ensures
        strictly_sorted(insert_sorted(a, k, v)),
        has_attr(insert_sorted(a, k, v), k, v),
        forall|i: int| 0 <= i < insert_sorted(a, k, v).len() && #[trigger] insert_sorted(a, k, v)[i].0 != k
            ==> has_attr(a, insert_sorted(a, k, v)[i].0, insert_sorted(a, k, v)[i].1),
    decreases a.len(),
{
    let r = insert_sorted(a, k, v);
    if a.len() == 0 {
        assert(r[0] == (k, v));
    } else if a[0].0 == k {
        assert(r[0] == (k, v));
        assert forall|i: int, j: int| 0 <= i < j < r.len() implies text_less(#[trigger] r[i].0, #[trigger] r[j].0) by {
            assert(r[j] == a[j]);
            if i > 0 {
                assert(r[i] == a[i]);
            }
        }
        assert forall|i: int| 0 <= i < r.len() && #[trigger] r[i].0 != k implies has_attr(a, r[i].0, r[i].1) by {
            assert(r[i] == a[i]);
        }
    } else if text_less(k, a[0].0) {
        assert(r[0] == (k, v));
        assert forall|i: int, j: int| 0 <= i < j < r.len() implies text_less(#[trigger] r[i].0, #[trigger] r[j].0) by {
            assert(r[j] == a[j - 1]);
            if i > 0 {
                assert(r[i] == a[i - 1]);
            } else if j > 1 {
                lemma_text_less_transitive(k, a[0].0, a[j - 1].0);
            }
        }
        assert forall|i: int| 0 <= i < r.len() && #[trigger] r[i].0 != k implies has_attr(a, r[i].0, r[i].1) by {
            assert(r[i] == a[i - 1]);
        }
    } else {
        let t = a.drop_first();
        assert forall|i: int, j: int| 0 <= i < j < t.len() implies text_less(#[trigger] t[i].0, #[trigger] t[j].0) by {
            assert(t[i] == a[i + 1] && t[j] == a[j + 1]);
        }
        lemma_insert_sorted_sorted(t, k, v);
        let rt = insert_sorted(t, k, v);
        assert(r == seq![a[0]] + rt);
        assert(text_less(a[0].0, k)) by {
            lemma_text_trichotomy(k, a[0].0);
        }
        let w = choose|i: int| 0 <= i < rt.len() && #[trigger] rt[i] == (k, v);
        assert(r[w + 1] == (k, v));
        assert forall|i: int| 0 <= i < rt.len() implies text_less(a[0].0, #[trigger] rt[i].0) by {
            if rt[i].0 != k {
                let m = choose|m: int| 0 <= m < t.len() && #[trigger] t[m] == (rt[i].0, rt[i].1);
                assert(t[m] == a[m + 1]);
            }
        }
        assert forall|i: int, j: int| 0 <= i < j < r.len() implies text_less(#[trigger] r[i].0, #[trigger] r[j].0) by {
            assert(r[j] == rt[j - 1]);
            if i > 0 {
                assert(r[i] == rt[i - 1]);
            }
        }
        assert forall|i: int| 0 <= i < r.len() && #[trigger] r[i].0 != k implies has_attr(a, r[i].0, r[i].1) by {
            if i == 0 {
                assert(a[0] == r[0]);
            } else {
                assert(r[i] == rt[i - 1]);
                let m = choose|m: int| 0 <= m < t.len() && #[trigger] t[m] == (rt[i - 1].0, rt[i - 1].1);
                assert(t[m] == a[m + 1]);
            }
        }
    }
}

/// Sets `key` to `value` in a key-sorted attribute list.
pub fn set_attribute(attrs: &mut Vec<(String, String)>, key: String, value: String)
    requires
        strictly_sorted(attrs_view(old(attrs)@)),
    ensures
        attrs_view(final(attrs)@) == insert_sorted(attrs_view(old(attrs)@), key@, value@),
        strictly_sorted(attrs_view(final(attrs)@)),
{
    let ghost a = attrs_view(attrs@);
    let n = attrs.len();
    let mut p: usize = 0;
    let mut c: i8 = -1;
    while p < n && c < 0
        invariant
            n == attrs@.len(),
            a == attrs_view(attrs@),
            p <= n,
            forall|i: int| 0 <= i < p ==> text_less(#[trigger] a[i].0, key@),
            c >= 0 ==> p < n && (c == 0 <==> a[p as int].0 == key@) && (c > 0 <==> text_less(key@, a[p as int].0)),
        decreases n - p + if c < 0 { 1int } else { 0int },
    {
        c = compare_text(attrs[p].0.as_str(), key.as_str());
        assert(a[p as int].0 == attrs@[p as int].0@);
        if c < 0 {
            p = p + 1;
        }
    }
    proof {
        if p < n {
            if c == 0 {
                crate::text::lemma_text_less_irreflexive(key@);
            } else {
                lemma_text_less_asymmetric(key@, a[p as int].0);
            }
        }
        lemma_insert_sorted_at(a, key@, value@, p as int);
        lemma_insert_sorted_sorted(a, key@, value@);
    }
    if p < n && c == 0 {
        attrs.set(p, (key, value));
    } else {
        attrs.insert(p, (key, value));
    }
    assert(attrs_view(attrs@) =~= insert_sorted(a, key@, value@));
}


/// The attribute list made from any pairs is strictly sorted by key, whatever
/// order the pairs came in.
pub proof fn lemma_sorted_attrs_sorted(pairs: Attrs)
    ensures
        strictly_sorted(sorted_attrs(pairs)),
    decreases pairs.len(),
{
    if pairs.len() > 0 {
        lemma_sorted_attrs_sorted(pairs.drop_last());
        lemma_insert_sorted_sorted(sorted_attrs(pairs.drop_last()), pairs.last().0, pairs.last().1);
    }
}

/// Key-sorted attribute list of `pairs`, a later pair of a key replacing an earlier one.
pub fn sort_attributes(pairs: &Vec<(String, String)>) -> (r: Vec<(String, String)>)
    ensures
        attrs_view(r@) == sorted_attrs(attrs_view(pairs@)),
        strictly_sorted(attrs_view(r@)),
{
    let ghost pv = attrs_view(pairs@);
    let mut r: Vec<(String, String)> = Vec::new();
    let mut i: usize = 0;
    while i < pairs.len()
        invariant
            i <= pairs@.len(),
            pv == attrs_view(pairs@),
            attrs_view(r@) == sorted_attrs(pv.take(i as int)),
            strictly_sorted(attrs_view(r@)),
        decreases pairs@.len() - i,
    {
        let k = pairs[i].0.clone();
        let v = pairs[i].1.clone();
        proof {
            lemma_sorted_attrs_sorted(pv.take(i as int));
            assert(pv.take(i + 1).drop_last() =~= pv.take(i as int));
        }
        set_attribute(&mut r, k, v);
        i = i + 1;
    }
    assert(pv.take(i as int) =~= pv);
    r
}

impl Tree {
    /// Appends `child` to the children of `parent`.
    pub fn adopt(&mut self, parent: usize, child: usize)
        requires
            parent < old(self)@.len(),
        ensures
            final(self)@ == old(self)@.update(
                parent as int,
                NodeView { children: old(self)@[parent as int].children.push(child), ..old(self)@[parent as int] },
            ),
    {
        self.nodes[parent].children.push(child);
        assert(self@ =~= old(self)@.update(
            parent as int,
            NodeView { children: old(self)@[parent as int].children.push(child), ..old(self)@[parent as int] },
        ));
    }

    /// Adds `node` to the arena; its index is the old length.
    pub fn add(&mut self, node: Node) -> (idx: usize)
        ensures
            idx == old(self)@.len(),
            final(self)@ == old(self)@.push(node@),
    {
        let idx = self.nodes.len();
        self.nodes.push(node);
        assert(self@ =~= old(self)@.push(node@));
        idx
    }
}


/// The value that the last pair with key `k` gives it, if any pair does.
pub open spec fn last_value(pairs: Attrs, k: Seq<char>) -> Option<Seq<char>>
    decreases pairs.len(),
{
    if pairs.len() == 0 {
        None
    } else if pairs.last().0 == k {
        Some(pairs.last().1)
    } else {
        last_value(pairs.drop_last(), k)
    }
}

proof fn lemma_sorted_unique(a: Attrs, k: Seq<char>, va: Seq<char>, vb: Seq<char>)
    requires
        strictly_sorted(a),
        has_attr(a, k, va),
        has_attr(a, k, vb),
    ensures
        va == vb,
{
    let i = choose|i: int| 0 <= i < a.len() && #[trigger] a[i] == (k, va);
    let j = choose|j: int| 0 <= j < a.len() && #[trigger] a[j] == (k, vb);
    crate::text::lemma_text_less_irreflexive(k);
    if i < j {
        assert(text_less(a[i].0, a[j].0));
    } else if j < i {
        assert(text_less(a[j].0, a[i].0));
    }
}

proof fn lemma_insert_sorted_keeps(a: Attrs, k: Seq<char>, v: Seq<char>, i: int)
    requires
        0 <= i < a.len(),
        a[i].0 != k,
    ensures
        has_attr(insert_sorted(a, k, v), a[i].0, a[i].1),
    decreases a.len(),
{
    let r = insert_sorted(a, k, v);
    if a[0].0 == k {
        assert(r[i] == a[i]);
    } else if text_less(k, a[0].0) {
        assert(r[i + 1] == a[i]);
    } else if i == 0 {
        assert(r[0] == a[0]);
    } else {
        let t = a.drop_first();
        assert(t[i - 1] == a[i]);
        lemma_insert_sorted_keeps(t, k, v, i - 1);
        let rt = insert_sorted(t, k, v);
        let m = choose|m: int| 0 <= m < rt.len() && #[trigger] rt[m] == (a[i].0, a[i].1);
        assert(r[m + 1] == rt[m]);
    }
}

/// The sorted list holds a key with a value exactly when the last pair of that
/// key in the input gave it that value.
pub proof fn lemma_sorted_attrs_last_wins(pairs: Attrs, k: Seq<char>, v: Seq<char>)
    ensures
        has_attr(sorted_attrs(pairs), k, v) <==> last_value(pairs, k) == Some(v),
    decreases pairs.len(),
{
    if pairs.len() > 0 {
        let p = pairs.drop_last();
        let s = sorted_attrs(p);
        let (kl, vl) = pairs.last();
        let r = insert_sorted(s, kl, vl);
        lemma_sorted_attrs_sorted(p);
        lemma_insert_sorted_sorted(s, kl, vl);
        if k == kl {
            if has_attr(r, k, v) {
                lemma_sorted_unique(r, k, v, vl);
            }
        } else {
            lemma_sorted_attrs_last_wins(p, k, v);
            if has_attr(r, k, v) {
                let i = choose|i: int| 0 <= i < r.len() && #[trigger] r[i] == (k, v);
                assert(r[i].0 != kl);
            }
            if has_attr(s, k, v) {
                let i = choose|i: int| 0 <= i < s.len() && #[trigger] s[i] == (k, v);
                lemma_insert_sorted_keeps(s, kl, vl, i);
            }
        }
    }
}


/// Two key-sorted lists that hold the same entries are the same list.
pub proof fn lemma_sorted_same_entries(a: Attrs, b: Attrs)
    requires
        strictly_sorted(a),
        strictly_sorted(b),
        forall|k: Seq<char>, v: Seq<char>| has_attr(a, k, v) <==> has_attr(b, k, v),
    ensures
        a == b,
    decreases a.len(),
{
    if a.len() == 0 {
        if b.len() > 0 {
            assert(has_attr(b, b[0].0, b[0].1));
        }
        assert(a =~= b);
    } else {
        assert(has_attr(a, a[0].0, a[0].1));
        let j = choose|j: int| 0 <= j < b.len() && #[trigger] b[j] == (a[0].0, a[0].1);
        assert(has_attr(b, b[0].0, b[0].1));
        let i = choose|i: int| 0 <= i < a.len() && #[trigger] a[i] == (b[0].0, b[0].1);
        if i > 0 && j > 0 {
            assert(text_less(a[0].0, a[i].0));
            assert(text_less(b[0].0, b[j].0));
            lemma_text_less_asymmetric(a[0].0, b[0].0);
        }
        assert(a[0] == b[0]);
        let ta = a.drop_first();
        let tb = b.drop_first();
        assert forall|k: Seq<char>, v: Seq<char>| has_attr(ta, k, v) <==> has_attr(tb, k, v) by {
            if has_attr(ta, k, v) {
                let m = choose|m: int| 0 <= m < ta.len() && #[trigger] ta[m] == (k, v);
                assert(a[m + 1] == (k, v));
                assert(text_less(a[0].0, a[m + 1].0));
                crate::text::lemma_text_less_irreflexive(k);
                assert(has_attr(a, k, v));
                assert(has_attr(b, k, v));
                let n = choose|n: int| 0 <= n < b.len() && #[trigger] b[n] == (k, v);
                assert(k != a[0].0);
                assert(n != 0);
                assert(tb[n - 1] == (k, v));
            }
            if has_attr(tb, k, v) {
                let m = choose|m: int| 0 <= m < tb.len() && #[trigger] tb[m] == (k, v);
                assert(b[m + 1] == (k, v));
                assert(text_less(b[0].0, b[m + 1].0));
                crate::text::lemma_text_less_irreflexive(k);
                assert(has_attr(b, k, v));
                assert(has_attr(a, k, v));
                let n = choose|n: int| 0 <= n < a.len() && #[trigger] a[n] == (k, v);
                assert(k != b[0].0);
                assert(n != 0);
                assert(ta[n - 1] == (k, v));
            }
        }
        assert forall|x: int, y: int| 0 <= x < y < ta.len() implies text_less(#[trigger] ta[x].0, #[trigger] ta[y].0) by {
            assert(ta[x] == a[x + 1] && ta[y] == a[y + 1]);
        }
        assert forall|x: int, y: int| 0 <= x < y < tb.len() implies text_less(#[trigger] tb[x].0, #[trigger] tb[y].0) by {
            assert(tb[x] == b[x + 1] && tb[y] == b[y + 1]);
        }
        lemma_sorted_same_entries(ta, tb);
        assert(a =~= seq![a[0]] + ta);
        assert(b =~= seq![b[0]] + tb);
    }
}

} // verus!

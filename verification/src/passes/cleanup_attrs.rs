use vstd::prelude::*;

use super::{result_from, Pass, PassResult};
use crate::ast::{is_foreign_exec, is_foreign_name, attrs_view, clone_opt, lemma_attrs_view_push, lemma_take_all, lemma_take_push, nodes_view, AttrV, Attribute, Document, ElemV, Element, Node, NodeV};
use crate::text::{chars_of, is_ascii_ws, is_ascii_ws_exec, push_char};

verus! {

broadcast use vstd::std_specs::vec::group_vec_axioms;

/// Collapses runs of white space into one space and trims both ends.
pub struct CleanupAttrs;

// ---------------------------------------------------------------------------
// White space collapsing.
// ---------------------------------------------------------------------------

/// Reading `s` from the left, a run of white space becomes one space once a
/// non-space has been seen; yields the text so far and whether the last
/// character read was white space (true at the start, so leading space is dropped).
pub open spec fn collapse_ws(s: Seq<char>) -> (Seq<char>, bool)
    decreases s.len(),
{
    if s.len() == 0 {
        (Seq::empty(), true)
    } else {
        let (r, prev_ws) = collapse_ws(s.drop_last());
        let c = s.last();
        if is_ascii_ws(c) {
            if prev_ws {
                (r, true)
            } else {
                (r.push(' '), true)
            }
        } else {
            (r.push(c), false)
        }
    }
}

/// Runs of white space collapsed to one space, leading and trailing white space removed.
pub open spec fn cleanup_ws(s: Seq<char>) -> Seq<char> {
    let r = collapse_ws(s).0;
    if r.len() > 0 && r.last() == ' ' {
        r.drop_last()
    } else {
        r
    }
}

/// A text whose white space is already clean: only single spaces, never at either end.
pub open spec fn is_clean(s: Seq<char>) -> bool {
    &&& forall|i: int| 0 <= i < s.len() ==> (is_ascii_ws(#[trigger] s[i]) ==> s[i] == ' ')
    &&& s.len() > 0 ==> s[0] != ' ' && s.last() != ' '
    &&& forall|i: int| 0 <= i < s.len() - 1 ==> !(#[trigger] s[i] == ' ' && s[i + 1] == ' ')
}

proof fn lemma_collapse_shape(s: Seq<char>)
    ensures
        ({
            let (r, pw) = collapse_ws(s);
            &&& forall|i: int| 0 <= i < r.len() ==> (is_ascii_ws(#[trigger] r[i]) ==> r[i] == ' ')
            &&& r.len() > 0 ==> r[0] != ' '
            &&& forall|i: int| 0 <= i < r.len() - 1 ==> !(#[trigger] r[i] == ' ' && r[i + 1] == ' ')
            &&& (r.len() > 0 ==> (pw <==> r.last() == ' '))
            &&& (r.len() == 0 ==> pw)
        }),
    decreases s.len(),
{
    if s.len() > 0 {
        lemma_collapse_shape(s.drop_last());
    }
}

/// The cleaned text has clean white space.
pub proof fn lemma_cleanup_ws_clean(s: Seq<char>)
    ensures
        is_clean(cleanup_ws(s)),
{
    lemma_collapse_shape(s);
    let r = collapse_ws(s).0;
    if r.len() > 0 && r.last() == ' ' {
        let t = r.drop_last();
        assert forall|i: int| 0 <= i < t.len() - 1 implies !(#[trigger] t[i] == ' ' && t[i + 1]
            == ' ') by {
            assert(t[i] == r[i] && t[i + 1] == r[i + 1]);
        }
        if t.len() > 0 {
            assert(r[t.len() - 1] != ' ');
        }
    }
}

proof fn lemma_collapse_clean(s: Seq<char>)
    requires
        is_clean(s),
    ensures
        collapse_ws(s).0 == s,
        s.len() > 0 ==> !collapse_ws(s).1,
    decreases s.len(),
{
    if s.len() > 0 {
        let t = s.drop_last();
        if t.len() > 0 && t.last() == ' ' {
            // the last character of `s` follows a space, so it is not one
            assert(s[s.len() - 2] == ' ');
            assert(s.last() != ' ');
            let u = t.drop_last();
            lemma_collapse_clean_prefix(s, t.len() - 1);
            assert(collapse_ws(t).0 == t) by {
                assert(u =~= s.take(t.len() - 1));
                assert(t.drop_last() =~= u);
            }
        } else {
            assert(is_clean(t)) by {
                assert forall|i: int| 0 <= i < t.len() && is_ascii_ws(#[trigger] t[i]) implies t[i]
                    == ' ' by {
                    assert(t[i] == s[i]);
                }
                assert forall|i: int| 0 <= i < t.len() - 1 implies !(#[trigger] t[i] == ' ' && t[i
                    + 1] == ' ') by {
                    assert(t[i] == s[i] && t[i + 1] == s[i + 1]);
                }
            }
            lemma_collapse_clean(t);
        }
        assert(collapse_ws(s).0 =~= s);
    }
}

/// Every proper prefix of a clean text that does not end in a space collapses to itself,
/// and the flag tells whether the prefix ends in a space.
proof fn lemma_collapse_clean_prefix(s: Seq<char>, k: int)
    requires
        is_clean(s),
        0 <= k <= s.len(),
    ensures
        collapse_ws(s.take(k)).0 == s.take(k),
        k > 0 ==> (collapse_ws(s.take(k)).1 <==> s[k - 1] == ' '),
    decreases k,
{
    if k > 0 {
        lemma_collapse_clean_prefix(s, k - 1);
        assert(s.take(k).drop_last() =~= s.take(k - 1));
        let c = s[k - 1];
        if is_ascii_ws(c) {
            assert(c == ' ');
            assert(k - 1 > 0);
            assert(s[k - 2] != ' ');
        }
        assert(collapse_ws(s.take(k)).0 =~= s.take(k));
    }
}

/// Cleaning clean text leaves it as it is, so cleaning twice is cleaning once.
pub proof fn lemma_cleanup_ws_idempotent(s: Seq<char>)
    ensures
        cleanup_ws(cleanup_ws(s)) == cleanup_ws(s),
{
    lemma_cleanup_ws_clean(s);
    let c = cleanup_ws(s);
    lemma_collapse_clean_prefix(c, c.len() as int);
    assert(c.take(c.len() as int) =~= c);
}

/// Collapse runs of whitespace (spaces, tabs, newlines) into a single space,
/// and trim leading/trailing whitespace.
pub fn cleanup_whitespace(s: &String) -> (r: String)
    ensures
        r@ == cleanup_ws(s@),
{
    let v = chars_of(s.as_str());
    let mut out: Vec<char> = Vec::new();
    let mut prev_ws = true;
    let mut i: usize = 0;
    while i < v.len()
        invariant
            v@ == s@,
            0 <= i <= v@.len(),
            (out@, prev_ws) == collapse_ws(v@.take(i as int)),
        decreases v@.len() - i,
    {
        let ch = v[i];
        assert(v@.take(i + 1).drop_last() =~= v@.take(i as int));
        if is_ascii_ws_exec(ch) {
            if !prev_ws {
                out.push(' ');
                prev_ws = true;
            }
        } else {
            out.push(ch);
            prev_ws = false;
        }
        i += 1;
    }
    assert(v@.take(v@.len() as int) =~= v@);
    if out.len() > 0 && out[out.len() - 1] == ' ' {
        out.pop();
    }
    let mut r = String::new();
    let mut j: usize = 0;
    while j < out.len()
        invariant
            0 <= j <= out@.len(),
            r@ == out@.take(j as int),
        decreases out@.len() - j,
    {
        push_char(&mut r, out[j]);
        j += 1;
        assert(r@ =~= out@.take(j as int));
    }
    assert(out@.take(out@.len() as int) =~= out@);
    assert(r@ =~= cleanup_ws(s@));
    r
}

// ---------------------------------------------------------------------------
// The pass over the tree.
// ---------------------------------------------------------------------------

pub open spec fn clean_attr(a: AttrV) -> AttrV {
    AttrV { value: cleanup_ws(a.value), ..a }
}

/// Attributes with cleaned values, and whether any value changed.
pub open spec fn clean_attrs(s: Seq<AttrV>) -> (Seq<AttrV>, bool)
    decreases s.len(),
{
    if s.len() == 0 {
        (Seq::empty(), false)
    } else {
        let (r, c) = clean_attrs(s.drop_last());
        (r.push(clean_attr(s.last())), c || cleanup_ws(s.last().value) != s.last().value)
    }
}

pub open spec fn ca_node(n: NodeV) -> (NodeV, bool)
    decreases n,
{
    match n {
        NodeV::Element(e) => {
            let (attrs, c1) = clean_attrs(e.attrs);
            let (children, c2) = if is_foreign_name(e.name) {
                (e.children, false)
            } else {
                ca_nodes(e.children)
            };
            (NodeV::Element(ElemV { attrs, children, ..e }), c1 || c2)
        },
        _ => (n, false),
    }
}

pub open spec fn ca_nodes(s: Seq<NodeV>) -> (Seq<NodeV>, bool)
    decreases s,
{
    if s.len() == 0 {
        (Seq::empty(), false)
    } else {
        let (r, c) = ca_nodes(s.drop_last());
        let (n, c2) = ca_node(s.last());
        (r.push(n), c || c2)
    }
}

proof fn lemma_clean_attrs_unchanged(s: Seq<AttrV>)
    requires
        !clean_attrs(s).1,
    ensures
        clean_attrs(s).0 == s,
    decreases s.len(),
{
    if s.len() > 0 {
        lemma_clean_attrs_unchanged(s.drop_last());
        assert(clean_attr(s.last()) == s.last());
        assert(clean_attrs(s).0 =~= s);
    }
}

proof fn lemma_ca_node_unchanged(n: NodeV)
    requires
        !ca_node(n).1,
    ensures
        ca_node(n).0 == n,
    decreases n,
{
    match n {
        NodeV::Element(e) => {
            lemma_clean_attrs_unchanged(e.attrs);
            if !is_foreign_name(e.name) {
                lemma_ca_nodes_unchanged(e.children);
            }
        },
        _ => {},
    }
}

proof fn lemma_ca_nodes_unchanged(s: Seq<NodeV>)
    requires
        !ca_nodes(s).1,
    ensures
        ca_nodes(s).0 == s,
    decreases s,
{
    if s.len() > 0 {
        lemma_ca_nodes_unchanged(s.drop_last());
        lemma_ca_node_unchanged(s.last());
        assert(ca_nodes(s).0 =~= s);
    }
}

fn clean_attr_list(v: &Vec<Attribute>) -> (r: (Vec<Attribute>, bool))
    ensures
        (attrs_view(r.0@), r.1) == clean_attrs(attrs_view(v@)),
{
    let mut out: Vec<Attribute> = Vec::new();
    let mut changed = false;
    let mut i: usize = 0;
    while i < v.len()
        invariant
            0 <= i <= v@.len(),
            (attrs_view(out@), changed) == clean_attrs(attrs_view(v@.take(i as int))),
        decreases v@.len() - i,
    {
        let a = &v[i];
        let value = cleanup_whitespace(&a.value);
        let differs = !crate::text::str_eq(value.as_str(), a.value.as_str());
        let na = Attribute { prefix: clone_opt(&a.prefix), name: a.name.clone(), value };
        proof {
            lemma_attrs_view_push(out@, na);
            lemma_attrs_view_push(v@.take(i as int), v@[i as int]);
            assert(v@.take(i as int).push(v@[i as int]) =~= v@.take(i + 1));
            let t = attrs_view(v@.take(i + 1));
            assert(t.drop_last() =~= attrs_view(v@.take(i as int)));
        }
        out.push(na);
        changed = changed || differs;
        i += 1;
    }
    assert(v@.take(v@.len() as int) =~= v@);
    (out, changed)
}

fn ca_node_exec(n: &Node) -> (r: (Node, bool))
    ensures
        (r.0@, r.1) == ca_node(n@),
    decreases n, 1int,
{
    match n {
        Node::Element(e) => {
            let (attributes, c1) = clean_attr_list(&e.attributes);
            let (children, c2) = if is_foreign_exec(&e.name) {
                (crate::ast::clone_nodes(&e.children), false)
            } else {
                ca_nodes_exec(&e.children)
            };
            let ne = Element {
                prefix: clone_opt(&e.prefix),
                name: e.name.clone(),
                attributes,
                children,
            };
            (Node::Element(ne), c1 || c2)
        },
        _ => (crate::ast::clone_node(n), false),
    }
}

fn ca_nodes_exec(v: &Vec<Node>) -> (r: (Vec<Node>, bool))
    ensures
        (nodes_view(r.0@), r.1) == ca_nodes(nodes_view(v@)),
    decreases v, 0int,
{
    let mut out: Vec<Node> = Vec::new();
    let mut changed = false;
    let mut i: usize = 0;
    while i < v.len()
        invariant
            0 <= i <= v@.len(),
            (nodes_view(out@), changed) == ca_nodes(nodes_view(v@.take(i as int))),
        decreases v@.len() - i,
    {
        let (n, c) = ca_node_exec(&v[i]);
        proof {
            lemma_take_push(v@, i as int);
            crate::ast::lemma_nodes_view_push(out@, n);
        }
        out.push(n);
        changed = changed || c;
        i += 1;
    }
    proof {
        lemma_take_all(v@);
    }
    (out, changed)
}

impl Pass for CleanupAttrs {
    open spec fn apply(&self, d: Seq<NodeV>) -> Seq<NodeV> {
        ca_nodes(d).0
    }

    open spec fn reports_change(&self, d: Seq<NodeV>) -> bool {
        ca_nodes(d).1
    }

    open spec fn pass_name(&self) -> Seq<char> {
        "cleanupAttrs"@
    }

    fn name(&self) -> (r: &'static str) {
        "cleanupAttrs"
    }

    fn run(&self, doc: &mut Document) -> (r: PassResult) {
        let (children, changed) = ca_nodes_exec(&doc.children);
        doc.children = children;
        result_from(changed)
    }

    proof fn lemma_unchanged(&self, d: Seq<NodeV>) {
        lemma_ca_nodes_unchanged(d);
    }
}

} // verus!

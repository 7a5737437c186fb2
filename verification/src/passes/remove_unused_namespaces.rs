//! Removal of namespace declarations that nothing uses.
use vstd::prelude::*;

use super::{result_from, Pass, PassResult};
use crate::ast::{
    attrs_view, clone_attr, clone_node, clone_nodes, clone_opt, lemma_attrs_view,
    lemma_attrs_view_push, lemma_nodes_view_len, lemma_nodes_view_push, lemma_take_all,
    lemma_take_push, nodes_view, AttrV, Attribute, Document, ElemV, Element, Node, NodeV,
};
use crate::text::is_lit;

verus! {

broadcast use vstd::std_specs::vec::group_vec_axioms;

/// Removes, from each top-level `<svg>` element, the `xmlns:p` declarations whose
/// prefix `p` no element and no attribute inside it uses.
pub struct RemoveUnusedNamespaces;

/// Whether an attribute carries the prefix `p`.
pub open spec fn attrs_use(attrs: Seq<AttrV>, p: Seq<char>) -> bool {
    exists|k: int| 0 <= k < attrs.len() && (#[trigger] attrs[k]).prefix == Some(p)
}

/// Whether the prefix `p` is used by a node of `s` or by anything inside one.
pub open spec fn uses_in(s: Seq<NodeV>, p: Seq<char>) -> bool
    decreases s,
{
    if s.len() == 0 {
        false
    } else {
        uses_in(s.drop_last(), p) || match s.last() {
            NodeV::Element(e) => e.prefix == Some(p) || attrs_use(e.attrs, p) || uses_in(
                e.children,
                p,
            ),
            _ => false,
        }
    }
}

/// Whether the prefix `p` is used by the element or by anything inside it.
pub open spec fn elem_uses(e: ElemV, p: Seq<char>) -> bool {
    e.prefix == Some(p) || attrs_use(e.attrs, p) || uses_in(e.children, p)
}

/// Whether an attribute is a namespace declaration that the element `e` does not use.
pub open spec fn unused_decl(a: AttrV, e: ElemV) -> bool {
    a.prefix == Some("xmlns"@) && !elem_uses(e, a.name)
}

/// The attributes of `attrs` that stay on `e`, in order, and whether any was dropped.
pub open spec fn un_attrs(attrs: Seq<AttrV>, e: ElemV) -> (Seq<AttrV>, bool)
    decreases attrs.len(),
{
    if attrs.len() == 0 {
        (Seq::empty(), false)
    } else {
        let (r, c) = un_attrs(attrs.drop_last(), e);
        if unused_decl(attrs.last(), e) {
            (r, true)
        } else {
            (r.push(attrs.last()), c)
        }
    }
}

/// The top-level nodes with the unused declarations of each `<svg>` element dropped,
/// and whether any was dropped.
pub open spec fn un_nodes(s: Seq<NodeV>) -> (Seq<NodeV>, bool)
    decreases s.len(),
{
    if s.len() == 0 {
        (Seq::empty(), false)
    } else {
        let (r, c) = un_nodes(s.drop_last());
        let n = s.last();
        match n {
            NodeV::Element(e) => {
                if e.name == "svg"@ {
                    let (attrs, c1) = un_attrs(e.attrs, e);
                    (r.push(NodeV::Element(ElemV { attrs, ..e })), c || c1)
                } else {
                    (r.push(n), c)
                }
            },
            _ => (r.push(n), c),
        }
    }
}

proof fn lemma_un_attrs_unchanged(attrs: Seq<AttrV>, e: ElemV)
    requires
        !un_attrs(attrs, e).1,
    ensures
        un_attrs(attrs, e).0 == attrs,
    decreases attrs.len(),
{
    if attrs.len() > 0 {
        lemma_un_attrs_unchanged(attrs.drop_last(), e);
        assert(un_attrs(attrs, e).0 =~= attrs);
    }
}

proof fn lemma_un_unchanged(s: Seq<NodeV>)
    requires
        !un_nodes(s).1,
    ensures
        un_nodes(s).0 == s,
    decreases s.len(),
{
    if s.len() > 0 {
        lemma_un_unchanged(s.drop_last());
        match s.last() {
            NodeV::Element(e) => {
                if e.name == "svg"@ {
                    lemma_un_attrs_unchanged(e.attrs, e);
                }
            },
            _ => {},
        }
        assert(un_nodes(s).0 =~= s);
    }
}

fn same_prefix(o: &Option<String>, p: &String) -> (b: bool)
    ensures
        b == (crate::ast::opt_view(*o) == Some(p@)),
{
    match o {
        Some(q) => crate::text::str_eq(q.as_str(), p.as_str()),
        None => false,
    }
}

fn attrs_use_exec(attrs: &Vec<Attribute>, p: &String) -> (b: bool)
    ensures
        b == attrs_use(attrs_view(attrs@), p@),
{
    proof {
        lemma_attrs_view(attrs@);
    }
    let ghost av = attrs_view(attrs@);
    let mut i: usize = 0;
    while i < attrs.len()
        invariant
            av == attrs_view(attrs@),
            av.len() == attrs@.len(),
            forall|k: int| 0 <= k < attrs@.len() ==> #[trigger] av[k] == attrs@[k]@,
            0 <= i <= attrs@.len(),
            forall|k: int| 0 <= k < i ==> (#[trigger] av[k]).prefix != Some(p@),
        decreases attrs@.len() - i,
    {
        assert(av[i as int] == attrs[i as int]@);
        if same_prefix(&attrs[i].prefix, p) {
            return true;
        }
        i += 1;
    }
    false
}

fn uses_exec(v: &Vec<Node>, p: &String) -> (b: bool)
    ensures
        b == uses_in(nodes_view(v@), p@),
    decreases v,
{
    let mut found = false;
    let mut i: usize = 0;
    while i < v.len()
        invariant
            0 <= i <= v@.len(),
            found == uses_in(nodes_view(v@.take(i as int)), p@),
        decreases v@.len() - i,
    {
        proof {
            lemma_take_push(v@, i as int);
        }
        let here = match &v[i] {
            Node::Element(e) => same_prefix(&e.prefix, p) || attrs_use_exec(&e.attributes, p)
                || uses_exec(&e.children, p),
            _ => false,
        };
        found = found || here;
        i += 1;
    }
    proof {
        lemma_take_all(v@);
    }
    found
}

fn un_attrs_exec(e: &Element) -> (r: (Vec<Attribute>, bool))
    ensures
        (attrs_view(r.0@), r.1) == un_attrs(attrs_view(e.attributes@), crate::ast::elem_view(*e)),
{
    let ghost ev = crate::ast::elem_view(*e);
    let v = &e.attributes;
    let mut out: Vec<Attribute> = Vec::new();
    let mut changed = false;
    let mut i: usize = 0;
    while i < v.len()
        invariant
            0 <= i <= v@.len(),
            v == &e.attributes,
            ev == crate::ast::elem_view(*e),
            (attrs_view(out@), changed) == un_attrs(attrs_view(v@.take(i as int)), ev),
        decreases v@.len() - i,
    {
        proof {
            assert(v@.take(i + 1) =~= v@.take(i as int).push(v@[i as int]));
            lemma_attrs_view_push(v@.take(i as int), v@[i as int]);
            let pre = attrs_view(v@.take(i as int));
            let cur = attrs_view(v@.take(i + 1));
            assert(cur.drop_last() =~= pre);
            assert(cur.last() == v@[i as int]@);
        }
        let a = &v[i];
        let unused = match &a.prefix {
            Some(q) => is_lit(q, "xmlns") && !(same_prefix(&e.prefix, &a.name) || attrs_use_exec(
                &e.attributes,
                &a.name,
            ) || uses_exec(&e.children, &a.name)),
            None => false,
        };
        if unused {
            changed = true;
        } else {
            let c = clone_attr(a);
            proof {
                lemma_attrs_view_push(out@, c);
            }
            out.push(c);
        }
        i += 1;
    }
    proof {
        assert(v@.take(v@.len() as int) =~= v@);
    }
    (out, changed)
}

fn un_exec(v: &Vec<Node>) -> (r: (Vec<Node>, bool))
    ensures
        (nodes_view(r.0@), r.1) == un_nodes(nodes_view(v@)),
{
    let mut out: Vec<Node> = Vec::new();
    let mut changed = false;
    let mut i: usize = 0;
    while i < v.len()
        invariant
            0 <= i <= v@.len(),
            (nodes_view(out@), changed) == un_nodes(nodes_view(v@.take(i as int))),
        decreases v@.len() - i,
    {
        proof {
            lemma_take_push(v@, i as int);
        }
        match &v[i] {
            Node::Element(e) => {
                if is_lit(&e.name, "svg") {
                    let (attributes, c1) = un_attrs_exec(e);
                    let n = Node::Element(
                        Element {
                            prefix: clone_opt(&e.prefix),
                            name: e.name.clone(),
                            attributes,
                            children: clone_nodes(&e.children),
                        },
                    );
                    proof {
                        lemma_nodes_view_push(out@, n);
                    }
                    out.push(n);
                    changed = changed || c1;
                } else {
                    let n = clone_node(&v[i]);
                    proof {
                        lemma_nodes_view_push(out@, n);
                    }
                    out.push(n);
                }
            },
            other => {
                let n = clone_node(other);
                proof {
                    lemma_nodes_view_push(out@, n);
                }
                out.push(n);
            },
        }
        i += 1;
    }
    proof {
        lemma_take_all(v@);
    }
    (out, changed)
}

impl Pass for RemoveUnusedNamespaces {
    open spec fn apply(&self, d: Seq<NodeV>) -> Seq<NodeV> {
        un_nodes(d).0
    }

    open spec fn reports_change(&self, d: Seq<NodeV>) -> bool {
        un_nodes(d).1
    }

    open spec fn pass_name(&self) -> Seq<char> {
        "removeUnusedNamespaces"@
    }

    fn name(&self) -> (r: &'static str) {
        "removeUnusedNamespaces"
    }

    fn run(&self, doc: &mut Document) -> (r: PassResult) {
        let (children, changed) = un_exec(&doc.children);
        doc.children = children;
        result_from(changed)
    }

    proof fn lemma_unchanged(&self, d: Seq<NodeV>) {
        lemma_un_unchanged(d);
    }
}

} // verus!

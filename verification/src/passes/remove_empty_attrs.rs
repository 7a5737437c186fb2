//! Removal of attributes whose value is empty.
use vstd::prelude::*;

use super::{result_from, Pass, PassResult};
use crate::ast::{
    attrs_view, clone_attr, clone_node, clone_opt, is_foreign_exec, is_foreign_name,
    lemma_attrs_view_push, lemma_nodes_view_push, lemma_take_all, lemma_take_push, nodes_view,
    AttrV, Attribute, Document, ElemV, Element, Node, NodeV,
};
use crate::text::{chars_of, is_lit};

verus! {

broadcast use vstd::std_specs::vec::group_vec_axioms;

/// Removes attributes with an empty value, but for the conditional processing
/// attributes, where an empty value means "never render".
pub struct RemoveEmptyAttrs;

/// The conditional processing attributes.
pub open spec fn is_conditional(name: Seq<char>) -> bool {
    name == "requiredExtensions"@ || name == "requiredFeatures"@ || name == "systemLanguage"@
}

/// Whether the pass drops this attribute.
pub open spec fn drops(a: AttrV) -> bool {
    a.value.len() == 0 && !is_conditional(a.name)
}

/// The attributes that stay, in order, and whether any was dropped.
pub open spec fn ea_attrs(s: Seq<AttrV>) -> (Seq<AttrV>, bool)
    decreases s.len(),
{
    if s.len() == 0 {
        (Seq::empty(), false)
    } else {
        let (r, c) = ea_attrs(s.drop_last());
        if drops(s.last()) {
            (r, true)
        } else {
            (r.push(s.last()), c)
        }
    }
}

/// Every element with its empty attributes dropped, at every depth (what a
/// `<foreignObject>` holds excepted), and whether any was dropped.
pub open spec fn ea_nodes(s: Seq<NodeV>) -> (Seq<NodeV>, bool)
    decreases s,
{
    if s.len() == 0 {
        (Seq::empty(), false)
    } else {
        let (r, c) = ea_nodes(s.drop_last());
        let n = s.last();
        match n {
            NodeV::Element(e) => {
                if is_foreign_name(e.name) {
                    (r.push(n), c)
                } else {
                    let (attrs, c1) = ea_attrs(e.attrs);
                    let (kids, c2) = ea_nodes(e.children);
                    (r.push(NodeV::Element(ElemV { attrs, children: kids, ..e })), c || c1 || c2)
                }
            },
            _ => (r.push(n), c),
        }
    }
}

proof fn lemma_ea_attrs_unchanged(s: Seq<AttrV>)
    requires
        !ea_attrs(s).1,
    ensures
        ea_attrs(s).0 == s,
    decreases s.len(),
{
    if s.len() > 0 {
        lemma_ea_attrs_unchanged(s.drop_last());
        assert(ea_attrs(s).0 =~= s);
    }
}

proof fn lemma_ea_unchanged(s: Seq<NodeV>)
    requires
        !ea_nodes(s).1,
    ensures
        ea_nodes(s).0 == s,
    decreases s,
{
    if s.len() > 0 {
        lemma_ea_unchanged(s.drop_last());
        match s.last() {
            NodeV::Element(e) => {
                if !is_foreign_name(e.name) {
                    lemma_ea_attrs_unchanged(e.attrs);
                    lemma_ea_unchanged(e.children);
                }
            },
            _ => {},
        }
        assert(ea_nodes(s).0 =~= s);
    }
}

fn drops_exec(a: &Attribute) -> (b: bool)
    ensures
        b == drops(a@),
{
    chars_of(a.value.as_str()).len() == 0 && !(is_lit(&a.name, "requiredExtensions") || is_lit(
        &a.name,
        "requiredFeatures",
    ) || is_lit(&a.name, "systemLanguage"))
}

fn ea_attrs_exec(v: &Vec<Attribute>) -> (r: (Vec<Attribute>, bool))
    ensures
        (attrs_view(r.0@), r.1) == ea_attrs(attrs_view(v@)),
{
    let mut out: Vec<Attribute> = Vec::new();
    let mut changed = false;
    let mut i: usize = 0;
    while i < v.len()
        invariant
            0 <= i <= v@.len(),
            (attrs_view(out@), changed) == ea_attrs(attrs_view(v@.take(i as int))),
        decreases v@.len() - i,
    {
        proof {
            assert(v@.take(i + 1) =~= v@.take(i as int).push(v@[i as int]));
            lemma_attrs_view_push(v@.take(i as int), v@[i as int]);
            let pre = attrs_view(v@.take(i as int));
            let cur = attrs_view(v@.take(i + 1));
            assert(cur.drop_last() =~= pre);
            assert(cur.last() == v@[i as int]@);
        }
        if drops_exec(&v[i]) {
            changed = true;
        } else {
            let a = clone_attr(&v[i]);
            proof {
                lemma_attrs_view_push(out@, a);
            }
            out.push(a);
        }
        i += 1;
    }
    proof {
        assert(v@.take(v@.len() as int) =~= v@);
    }
    (out, changed)
}

fn ea_exec(v: &Vec<Node>) -> (r: (Vec<Node>, bool))
    ensures
        (nodes_view(r.0@), r.1) == ea_nodes(nodes_view(v@)),
    decreases v,
{
    let mut out: Vec<Node> = Vec::new();
    let mut changed = false;
    let mut i: usize = 0;
    while i < v.len()
        invariant
            0 <= i <= v@.len(),
            (nodes_view(out@), changed) == ea_nodes(nodes_view(v@.take(i as int))),
        decreases v@.len() - i,
    {
        proof {
            lemma_take_push(v@, i as int);
        }
        match &v[i] {
            Node::Element(e) => {
                if is_foreign_exec(&e.name) {
                    let n = clone_node(&v[i]);
                    proof {
                        lemma_nodes_view_push(out@, n);
                    }
                    out.push(n);
                } else {
                    let (attributes, c1) = ea_attrs_exec(&e.attributes);
                    let (children, c2) = ea_exec(&e.children);
                    let n = Node::Element(
                        Element { prefix: clone_opt(&e.prefix), name: e.name.clone(), attributes, children },
                    );
                    proof {
                        lemma_nodes_view_push(out@, n);
                    }
                    out.push(n);
                    changed = changed || c1 || c2;
                }
            },
            other => {
                let n = clone_node(other);
                proof {
                    lemma_nodes_view_push(out@, n);
                }
                out.push(n);
            },
        }
        i += 1;
    }
    proof {
        lemma_take_all(v@);
    }
    (out, changed)
}

impl Pass for RemoveEmptyAttrs {
    open spec fn apply(&self, d: Seq<NodeV>) -> Seq<NodeV> {
        ea_nodes(d).0
    }

    open spec fn reports_change(&self, d: Seq<NodeV>) -> bool {
        ea_nodes(d).1
    }

    open spec fn pass_name(&self) -> Seq<char> {
        "removeEmptyAttrs"@
    }

    fn name(&self) -> (r: &'static str) {
        "removeEmptyAttrs"
    }

    fn run(&self, doc: &mut Document) -> (r: PassResult) {
        let (children, changed) = ea_exec(&doc.children);
        doc.children = children;
        result_from(changed)
    }

    proof fn lemma_unchanged(&self, d: Seq<NodeV>) {
        lemma_ea_unchanged(d);
    }
}

} // verus!

use vstd::prelude::*;

use super::{result_from, Pass, PassResult};
use crate::ast::{is_foreign_exec, is_foreign_name, 
    clone_attrs, clone_node, clone_opt, lemma_nodes_view_push, lemma_take_all, lemma_take_push,
    nodes_view, Document, ElemV, Element, Node, NodeV,
};
use crate::text::is_lit;

verus! {

broadcast use vstd::std_specs::vec::group_vec_axioms;

/// Opt-in pass: removes <desc> elements.
/// NOT included in default preset because <desc> carries accessibility semantics.
pub struct RemoveDesc;

pub open spec fn is_desc_name(name: Seq<char>) -> bool {
    name == "desc"@ || name == "title"@
}

/// The nodes with every `<desc>` and `<title>` element (and what it holds) removed,
/// and whether any was found.
pub open spec fn rdesc_nodes(s: Seq<NodeV>) -> (Seq<NodeV>, bool)
    decreases s,
{
    if s.len() == 0 {
        (Seq::empty(), false)
    } else {
        let (r, c) = rdesc_nodes(s.drop_last());
        match s.last() {
            NodeV::Element(e) => if is_desc_name(e.name) {
                (r, true)
            } else {
                let (kids, c2) = if is_foreign_name(e.name) {
                    (e.children, false)
                } else {
                    rdesc_nodes(e.children)
                };
                (r.push(NodeV::Element(ElemV { children: kids, ..e })), c || c2)
            },
            n => (r.push(n), c),
        }
    }
}

proof fn lemma_rdesc_unchanged(s: Seq<NodeV>)
    requires
        !rdesc_nodes(s).1,
    ensures
        rdesc_nodes(s).0 == s,
    decreases s,
{
    if s.len() > 0 {
        lemma_rdesc_unchanged(s.drop_last());
        match s.last() {
            NodeV::Element(e) => {
                if !is_desc_name(e.name) {
                    if !is_foreign_name(e.name) {
                        lemma_rdesc_unchanged(e.children);
                    }
                }
            },
            _ => {},
        }
        assert(rdesc_nodes(s).0 =~= s);
    }
}

fn rdesc_exec(v: &Vec<Node>) -> (r: (Vec<Node>, bool))
    ensures
        (nodes_view(r.0@), r.1) == rdesc_nodes(nodes_view(v@)),
    decreases v,
{
    let mut out: Vec<Node> = Vec::new();
    let mut changed = false;
    let mut i: usize = 0;
    while i < v.len()
        invariant
            0 <= i <= v@.len(),
            (nodes_view(out@), changed) == rdesc_nodes(nodes_view(v@.take(i as int))),
        decreases v@.len() - i,
    {
        proof {
            lemma_take_push(v@, i as int);
        }
        match &v[i] {
            Node::Element(e) => {
                if is_lit(&e.name, "desc") || is_lit(&e.name, "title") {
                    changed = true;
                } else {
                    let (children, c) = if is_foreign_exec(&e.name) {
                        (crate::ast::clone_nodes(&e.children), false)
                    } else {
                        rdesc_exec(&e.children)
                    };
                    let n = Node::Element(
                        Element {
                            prefix: clone_opt(&e.prefix),
                            name: e.name.clone(),
                            attributes: clone_attrs(&e.attributes),
                            children,
                        },
                    );
                    proof {
                        lemma_nodes_view_push(out@, n);
                    }
                    out.push(n);
                    changed = changed || c;
                }
            },
            other => {
                let n = clone_node(other);
                proof {
                    lemma_nodes_view_push(out@, n);
                }
                out.push(n);
            },
        }
        i += 1;
    }
    proof {
        lemma_take_all(v@);
    }
    (out, changed)
}

impl Pass for RemoveDesc {
    open spec fn apply(&self, d: Seq<NodeV>) -> Seq<NodeV> {
        rdesc_nodes(d).0
    }

    open spec fn reports_change(&self, d: Seq<NodeV>) -> bool {
        rdesc_nodes(d).1
    }

    open spec fn pass_name(&self) -> Seq<char> {
        "removeDesc"@
    }

    fn name(&self) -> (r: &'static str) {
        "removeDesc"
    }

    fn run(&self, doc: &mut Document) -> (r: PassResult) {
        let (children, changed) = rdesc_exec(&doc.children);
        doc.children = children;
        result_from(changed)
    }

    proof fn lemma_unchanged(&self, d: Seq<NodeV>) {
        lemma_rdesc_unchanged(d);
    }
}

} // verus!

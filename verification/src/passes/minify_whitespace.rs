//! Removal of white space between elements: a text node of white space alone goes,
//! except inside the elements whose text is content.
use vstd::prelude::*;

use super::{result_from, Pass, PassResult};
use crate::ast::{
    clone_attrs, clone_node, clone_nodes, clone_opt, lemma_nodes_view_push, lemma_take_all,
    lemma_take_push, nodes_view, Document, ElemV, Element, Node, NodeV,
};
use crate::text::{chars_of, is_lit, is_xml_ws};

verus! {

broadcast use vstd::std_specs::vec::group_vec_axioms;

/// Removes white-space-only text between elements.
pub struct MinifyWhitespace;

/// The elements whose text is content (or, for `<foreignObject>`, is never touched).
pub open spec fn keeps_text(name: Seq<char>) -> bool {
    name == "text"@ || name == "tspan"@ || name == "textPath"@ || name == "title"@ || name
        == "desc"@ || name == "style"@ || name == "script"@ || name == "foreignObject"@
}

/// A text node made of XML white space alone.
pub open spec fn is_blank(n: NodeV) -> bool {
    n is Text && forall|i: int|
        0 <= i < n->Text_0.len() ==> is_xml_ws(#[trigger] n->Text_0[i])
}

/// The nodes without blank text, at every depth but inside the elements that keep text,
/// and whether any went.
pub open spec fn mw_nodes(s: Seq<NodeV>) -> (Seq<NodeV>, bool)
    decreases s,
{
    if s.len() == 0 {
        (Seq::empty(), false)
    } else {
        let (r, c) = mw_nodes(s.drop_last());
        let n = s.last();
        if is_blank(n) {
            (r, true)
        } else {
            match n {
                NodeV::Element(e) => {
                    if keeps_text(e.name) {
                        (r.push(n), c)
                    } else {
                        let (kids, c2) = mw_nodes(e.children);
                        (r.push(NodeV::Element(ElemV { children: kids, ..e })), c || c2)
                    }
                },
                _ => (r.push(n), c),
            }
        }
    }
}

proof fn lemma_mw_unchanged(s: Seq<NodeV>)
    requires
        !mw_nodes(s).1,
    ensures
        mw_nodes(s).0 == s,
    decreases s,
{
    if s.len() > 0 {
        lemma_mw_unchanged(s.drop_last());
        match s.last() {
            NodeV::Element(e) => {
                if !keeps_text(e.name) {
                    lemma_mw_unchanged(e.children);
                }
            },
            _ => {},
        }
        assert(mw_nodes(s).0 =~= s);
    }
}

fn is_blank_exec(n: &Node) -> (b: bool)
    ensures
        b == is_blank(n@),
{
    match n {
        Node::Text(t) => {
            assert(n@ == NodeV::Text(t@));
            let v = chars_of(t.as_str());
            let mut i: usize = 0;
            while i < v.len()
                invariant
                    v@ == t@,
                    n@ == NodeV::Text(t@),
                    0 <= i <= v@.len(),
                    forall|k: int| 0 <= k < i ==> is_xml_ws(#[trigger] v@[k]),
                decreases v@.len() - i,
            {
                let c = v[i];
                if !(c == ' ' || c == '\t' || c == '\n' || c == '\r') {
                    assert(v@[i as int] == c);
                    assert(n@->Text_0 == t@);
                    assert(!is_xml_ws(n@->Text_0[i as int]));
                    return false;
                }
                i += 1;
            }
            true
        },
        _ => false,
    }
}

fn keeps_text_exec(name: &String) -> (b: bool)
    ensures
        b == keeps_text(name@),
{
    is_lit(name, "text") || is_lit(name, "tspan") || is_lit(name, "textPath") || is_lit(
        name,
        "title",
    ) || is_lit(name, "desc") || is_lit(name, "style") || is_lit(name, "script") || is_lit(
        name,
        "foreignObject",
    )
}

fn mw_exec(v: &Vec<Node>) -> (r: (Vec<Node>, bool))
    ensures
        (nodes_view(r.0@), r.1) == mw_nodes(nodes_view(v@)),
    decreases v,
{
    let mut out: Vec<Node> = Vec::new();
    let mut changed = false;
    let mut i: usize = 0;
    while i < v.len()
        invariant
            0 <= i <= v@.len(),
            (nodes_view(out@), changed) == mw_nodes(nodes_view(v@.take(i as int))),
        decreases v@.len() - i,
    {
        proof {
            lemma_take_push(v@, i as int);
        }
        if is_blank_exec(&v[i]) {
            changed = true;
        } else {
            match &v[i] {
                Node::Element(e) => {
                    let (children, c) = if keeps_text_exec(&e.name) {
                        (clone_nodes(&e.children), false)
                    } else {
                        mw_exec(&e.children)
                    };
                    let n = Node::Element(
                        Element {
                            prefix: clone_opt(&e.prefix),
                            name: e.name.clone(),
                            attributes: clone_attrs(&e.attributes),
                            children,
                        },
                    );
                    proof {
                        lemma_nodes_view_push(out@, n);
                    }
                    out.push(n);
                    changed = changed || c;
                },
                other => {
                    let n = clone_node(other);
                    proof {
                        lemma_nodes_view_push(out@, n);
                    }
                    out.push(n);
                },
            }
        }
        i += 1;
    }
    proof {
        lemma_take_all(v@);
    }
    (out, changed)
}

impl Pass for MinifyWhitespace {
    open spec fn apply(&self, d: Seq<NodeV>) -> Seq<NodeV> {
        mw_nodes(d).0
    }

    open spec fn reports_change(&self, d: Seq<NodeV>) -> bool {
        mw_nodes(d).1
    }

    open spec fn pass_name(&self) -> Seq<char> {
        "minifyWhitespace"@
    }

    fn name(&self) -> (r: &'static str) {
        "minifyWhitespace"
    }

    fn run(&self, doc: &mut Document) -> (r: PassResult) {
        let (children, changed) = mw_exec(&doc.children);
        doc.children = children;
        result_from(changed)
    }

    proof fn lemma_unchanged(&self, d: Seq<NodeV>) {
        lemma_mw_unchanged(d);
    }
}

} // verus!

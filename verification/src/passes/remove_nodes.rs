//! Removal of dead weight: comments, document type declarations, processing
//! instructions, `<metadata>` elements, empty text elements and empty containers.
use vstd::prelude::*;

use super::{result_from, Pass, PassResult};
use crate::ast::{
    attrs_view, clone_attrs, clone_node, clone_opt, is_foreign_exec, is_foreign_name,
    lemma_attrs_view, lemma_nodes_view_len, lemma_nodes_view_push, lemma_take_all,
    lemma_take_push, nodes_view, AttrV, Attribute, Document, ElemV, Element, Node, NodeV,
};
use crate::text::{is_lit, str_eq};

verus! {

broadcast use vstd::std_specs::vec::group_vec_axioms;

/// Removes comments.
pub struct RemoveComments;

/// Removes document type declarations.
pub struct RemoveDoctype;

/// Removes processing instructions (the XML declaration among them).
pub struct RemoveProcInst;

/// Removes `<metadata>` elements (editor and licence data that nothing draws).
pub struct RemoveMetadata;

/// Removes `<text>` and `<tspan>` elements that hold nothing.
pub struct RemoveEmptyText;

/// Removes container elements that hold nothing and draw nothing.
pub struct RemoveEmptyContainers;

/// The kinds of node that a removal pass takes out.
#[derive(Clone, Copy, PartialEq, Eq, Structural)]
pub enum DeadKind {
    Comment,
    Doctype,
    ProcInst,
    Metadata,
    EmptyText,
    EmptyContainer,
}

/// Whether an attribute of this name, without a prefix, is present.
pub open spec fn has_attr(attrs: Seq<AttrV>, name: Seq<char>) -> bool {
    exists|k: int| 0 <= k < attrs.len() && (#[trigger] attrs[k]).prefix is None && attrs[k].name == name
}

/// The container elements, which draw only what they hold.
pub open spec fn is_container_name(name: Seq<char>) -> bool {
    name == "a"@ || name == "defs"@ || name == "g"@ || name == "marker"@ || name == "mask"@ || name
        == "missing-glyph"@ || name == "pattern"@ || name == "switch"@ || name == "symbol"@
}

/// Whether an empty container stays all the same: one with an `id` may be referenced
/// (`<symbol>` and `<defs>` among them), a `<g>` with a `filter` may still paint, and a
/// `<pattern>` with attributes may take its content from another.
pub open spec fn kept_empty(e: ElemV) -> bool {
    has_attr(e.attrs, "id"@) || (e.name == "g"@ && has_attr(e.attrs, "filter"@)) || (e.name
        == "pattern"@ && e.attrs.len() > 0)
}

/// Whether `n` is a node of kind `k`.
pub open spec fn is_dead(k: DeadKind, n: NodeV) -> bool {
    match k {
        DeadKind::Comment => n is Comment,
        DeadKind::Doctype => n is Doctype,
        DeadKind::ProcInst => n is ProcInst,
        DeadKind::Metadata => n is Element && n->Element_0.name == "metadata"@,
        DeadKind::EmptyText => n is Element && (n->Element_0.name == "text"@ || n->Element_0.name
            == "tspan"@) && n->Element_0.children.len() == 0,
        DeadKind::EmptyContainer => n is Element && is_container_name(n->Element_0.name)
            && n->Element_0.children.len() == 0 && !kept_empty(n->Element_0),
    }
}

/// The nodes with every node of kind `k` removed, at every depth (what a
/// `<foreignObject>` holds excepted), and whether any was found.
pub open spec fn rn_nodes(k: DeadKind, s: Seq<NodeV>) -> (Seq<NodeV>, bool)
    decreases s,
{
    if s.len() == 0 {
        (Seq::empty(), false)
    } else {
        let (r, c) = rn_nodes(k, s.drop_last());
        let n = s.last();
        if is_dead(k, n) {
            (r, true)
        } else {
            match n {
                NodeV::Element(e) => {
                    let (kids, c2) = if is_foreign_name(e.name) {
                        (e.children, false)
                    } else {
                        rn_nodes(k, e.children)
                    };
                    (r.push(NodeV::Element(ElemV { children: kids, ..e })), c || c2)
                },
                _ => (r.push(n), c),
            }
        }
    }
}

proof fn lemma_rn_unchanged(k: DeadKind, s: Seq<NodeV>)
    requires
        !rn_nodes(k, s).1,
    ensures
        rn_nodes(k, s).0 == s,
    decreases s,
{
    if s.len() > 0 {
        lemma_rn_unchanged(k, s.drop_last());
        match s.last() {
            NodeV::Element(e) => {
                if !is_foreign_name(e.name) {
                    lemma_rn_unchanged(k, e.children);
                }
            },
            _ => {},
        }
        assert(rn_nodes(k, s).0 =~= s);
    }
}

fn has_attr_exec(attrs: &Vec<Attribute>, name: &str) -> (b: bool)
    ensures
        b == has_attr(attrs_view(attrs@), name@),
{
    proof {
        lemma_attrs_view(attrs@);
    }
    let ghost av = attrs_view(attrs@);
    let mut i: usize = 0;
    while i < attrs.len()
        invariant
            av == attrs_view(attrs@),
            av.len() == attrs@.len(),
            forall|k: int| 0 <= k < attrs@.len() ==> #[trigger] av[k] == attrs@[k]@,
            0 <= i <= attrs@.len(),
            forall|k: int|
                0 <= k < i ==> !((#[trigger] av[k]).prefix is None && av[k].name == name@),
        decreases attrs@.len() - i,
    {
        assert(av[i as int] == attrs[i as int]@);
        if attrs[i].prefix.is_none() && str_eq(attrs[i].name.as_str(), name) {
            return true;
        }
        i += 1;
    }
    false
}

fn is_container_exec(name: &String) -> (b: bool)
    ensures
        b == is_container_name(name@),
{
    is_lit(name, "a") || is_lit(name, "defs") || is_lit(name, "g") || is_lit(name, "marker")
        || is_lit(name, "mask") || is_lit(name, "missing-glyph") || is_lit(name, "pattern")
        || is_lit(name, "switch") || is_lit(name, "symbol")
}

fn kept_empty_exec(e: &Element) -> (b: bool)
    ensures
        b == kept_empty(crate::ast::elem_view(*e)),
{
    proof {
        lemma_attrs_view(e.attributes@);
    }
    has_attr_exec(&e.attributes, "id") || (is_lit(&e.name, "g") && has_attr_exec(
        &e.attributes,
        "filter",
    )) || (is_lit(&e.name, "pattern") && e.attributes.len() > 0)
}

fn is_dead_exec(k: DeadKind, n: &Node) -> (b: bool)
    ensures
        b == is_dead(k, n@),
{
    match (k, n) {
        (DeadKind::Comment, Node::Comment(_)) => true,
        (DeadKind::Doctype, Node::Doctype(_)) => true,
        (DeadKind::ProcInst, Node::ProcessingInstruction(_)) => true,
        (DeadKind::Metadata, Node::Element(e)) => is_lit(&e.name, "metadata"),
        (DeadKind::EmptyText, Node::Element(e)) => {
            proof {
                lemma_nodes_view_len(e.children@);
            }
            (is_lit(&e.name, "text") || is_lit(&e.name, "tspan")) && e.children.len() == 0
        },
        (DeadKind::EmptyContainer, Node::Element(e)) => {
            proof {
                lemma_nodes_view_len(e.children@);
            }
            is_container_exec(&e.name) && e.children.len() == 0 && !kept_empty_exec(e)
        },
        _ => false,
    }
}

fn rn_exec(k: DeadKind, v: &Vec<Node>) -> (r: (Vec<Node>, bool))
    ensures
        (nodes_view(r.0@), r.1) == rn_nodes(k, nodes_view(v@)),
    decreases v,
{
    let mut out: Vec<Node> = Vec::new();
    let mut changed = false;
    let mut i: usize = 0;
    while i < v.len()
        invariant
            0 <= i <= v@.len(),
            (nodes_view(out@), changed) == rn_nodes(k, nodes_view(v@.take(i as int))),
        decreases v@.len() - i,
    {
        proof {
            lemma_take_push(v@, i as int);
        }
        if is_dead_exec(k, &v[i]) {
            changed = true;
        } else {
            match &v[i] {
                Node::Element(e) => {
                    let (children, c) = if is_foreign_exec(&e.name) {
                        (crate::ast::clone_nodes(&e.children), false)
                    } else {
                        rn_exec(k, &e.children)
                    };
                    let n = Node::Element(
                        Element {
                            prefix: clone_opt(&e.prefix),
                            name: e.name.clone(),
                            attributes: clone_attrs(&e.attributes),
                            children,
                        },
                    );
                    proof {
                        lemma_nodes_view_push(out@, n);
                    }
                    out.push(n);
                    changed = changed || c;
                },
                other => {
                    let n = clone_node(other);
                    proof {
                        lemma_nodes_view_push(out@, n);
                    }
                    out.push(n);
                },
            }
        }
        i += 1;
    }
    proof {
        lemma_take_all(v@);
    }
    (out, changed)
}

impl Pass for RemoveComments {
    open spec fn apply(&self, d: Seq<NodeV>) -> Seq<NodeV> {
        rn_nodes(DeadKind::Comment, d).0
    }

    open spec fn reports_change(&self, d: Seq<NodeV>) -> bool {
        rn_nodes(DeadKind::Comment, d).1
    }

    open spec fn pass_name(&self) -> Seq<char> {
        "removeComments"@
    }

    fn name(&self) -> (r: &'static str) {
        "removeComments"
    }

    fn run(&self, doc: &mut Document) -> (r: PassResult) {
        let (children, changed) = rn_exec(DeadKind::Comment, &doc.children);
        doc.children = children;
        result_from(changed)
    }

    proof fn lemma_unchanged(&self, d: Seq<NodeV>) {
        lemma_rn_unchanged(DeadKind::Comment, d);
    }
}

impl Pass for RemoveDoctype {
    open spec fn apply(&self, d: Seq<NodeV>) -> Seq<NodeV> {
        rn_nodes(DeadKind::Doctype, d).0
    }

    open spec fn reports_change(&self, d: Seq<NodeV>) -> bool {
        rn_nodes(DeadKind::Doctype, d).1
    }

    open spec fn pass_name(&self) -> Seq<char> {
        "removeDoctype"@
    }

    fn name(&self) -> (r: &'static str) {
        "removeDoctype"
    }

    fn run(&self, doc: &mut Document) -> (r: PassResult) {
        let (children, changed) = rn_exec(DeadKind::Doctype, &doc.children);
        doc.children = children;
        result_from(changed)
    }

    proof fn lemma_unchanged(&self, d: Seq<NodeV>) {
        lemma_rn_unchanged(DeadKind::Doctype, d);
    }
}

impl Pass for RemoveProcInst {
    open spec fn apply(&self, d: Seq<NodeV>) -> Seq<NodeV> {
        rn_nodes(DeadKind::ProcInst, d).0
    }

    open spec fn reports_change(&self, d: Seq<NodeV>) -> bool {
        rn_nodes(DeadKind::ProcInst, d).1
    }

    open spec fn pass_name(&self) -> Seq<char> {
        "removeProcInst"@
    }

    fn name(&self) -> (r: &'static str) {
        "removeProcInst"
    }

    fn run(&self, doc: &mut Document) -> (r: PassResult) {
        let (children, changed) = rn_exec(DeadKind::ProcInst, &doc.children);
        doc.children = children;
        result_from(changed)
    }

    proof fn lemma_unchanged(&self, d: Seq<NodeV>) {
        lemma_rn_unchanged(DeadKind::ProcInst, d);
    }
}

impl Pass for RemoveMetadata {
    open spec fn apply(&self, d: Seq<NodeV>) -> Seq<NodeV> {
        rn_nodes(DeadKind::Metadata, d).0
    }

    open spec fn reports_change(&self, d: Seq<NodeV>) -> bool {
        rn_nodes(DeadKind::Metadata, d).1
    }

    open spec fn pass_name(&self) -> Seq<char> {
        "removeMetadata"@
    }

    fn name(&self) -> (r: &'static str) {
        "removeMetadata"
    }

    fn run(&self, doc: &mut Document) -> (r: PassResult) {
        let (children, changed) = rn_exec(DeadKind::Metadata, &doc.children);
        doc.children = children;
        result_from(changed)
    }

    proof fn lemma_unchanged(&self, d: Seq<NodeV>) {
        lemma_rn_unchanged(DeadKind::Metadata, d);
    }
}

impl Pass for RemoveEmptyText {
    open spec fn apply(&self, d: Seq<NodeV>) -> Seq<NodeV> {
        rn_nodes(DeadKind::EmptyText, d).0
    }

    open spec fn reports_change(&self, d: Seq<NodeV>) -> bool {
        rn_nodes(DeadKind::EmptyText, d).1
    }

    open spec fn pass_name(&self) -> Seq<char> {
        "removeEmptyText"@
    }

    fn name(&self) -> (r: &'static str) {
        "removeEmptyText"
    }

    fn run(&self, doc: &mut Document) -> (r: PassResult) {
        let (children, changed) = rn_exec(DeadKind::EmptyText, &doc.children);
        doc.children = children;
        result_from(changed)
    }

    proof fn lemma_unchanged(&self, d: Seq<NodeV>) {
        lemma_rn_unchanged(DeadKind::EmptyText, d);
    }
}

impl Pass for RemoveEmptyContainers {
    open spec fn apply(&self, d: Seq<NodeV>) -> Seq<NodeV> {
        rn_nodes(DeadKind::EmptyContainer, d).0
    }

    open spec fn reports_change(&self, d: Seq<NodeV>) -> bool {
        rn_nodes(DeadKind::EmptyContainer, d).1
    }

    open spec fn pass_name(&self) -> Seq<char> {
        "removeEmptyContainers"@
    }

    fn name(&self) -> (r: &'static str) {
        "removeEmptyContainers"
    }

    fn run(&self, doc: &mut Document) -> (r: PassResult) {
        let (children, changed) = rn_exec(DeadKind::EmptyContainer, &doc.children);
        doc.children = children;
        result_from(changed)
    }

    proof fn lemma_unchanged(&self, d: Seq<NodeV>) {
        lemma_rn_unchanged(DeadKind::EmptyContainer, d);
    }
}

} // verus!

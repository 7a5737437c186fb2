//! Removal of editor data: elements and attributes in the namespaces of drawing
//! programs (Inkscape, Sodipodi, Illustrator, Sketch, Figma and the like).
use vstd::prelude::*;

use super::{result_from, Pass, PassResult};
use crate::ast::{
    attrs_view, clone_attr, clone_node, clone_opt, is_foreign_exec, is_foreign_name,
    lemma_attrs_view, lemma_attrs_view_push, lemma_nodes_view_push, lemma_take_all,
    lemma_take_push, nodes_view, opt_view, AttrV, Attribute, Document, ElemV, Element, Node, NodeV,
};
use crate::text::{is_lit, str_eq};

verus! {

broadcast use vstd::std_specs::vec::group_vec_axioms;

/// Removes, inside each top-level `<svg>` element, the elements and attributes whose
/// prefix that element declares for an editor's namespace.
pub struct RemoveEditorData;

/// The namespaces that drawing programs write their own data in.
pub open spec fn is_editor_ns(uri: Seq<char>) -> bool {
    uri == "http://inkscape.sourceforge.net/DTD/sodipodi-0.dtd"@ || uri
        == "http://sodipodi.sourceforge.net/DTD/sodipodi-0.dtd"@ || uri
        == "http://www.inkscape.org/namespaces/inkscape"@ || uri
        == "http://www.bohemiancoding.com/sketch/ns"@ || uri
        == "http://ns.adobe.com/AdobeIllustrator/10.0/"@ || uri == "http://ns.adobe.com/Graphs/1.0/"@
        || uri == "http://ns.adobe.com/AdobeSVGViewerExtensions/3.0/"@ || uri
        == "http://ns.adobe.com/Variables/1.0/"@ || uri == "http://ns.adobe.com/SaveForWeb/1.0/"@
        || uri == "http://ns.adobe.com/Extensibility/1.0/"@ || uri == "http://ns.adobe.com/Flows/1.0/"@
        || uri == "http://ns.adobe.com/ImageReplacement/1.0/"@ || uri
        == "http://ns.adobe.com/GenericCustomNamespace/1.0/"@ || uri
        == "http://ns.adobe.com/XPath/1.0/"@ || uri
        == "http://schemas.microsoft.com/visio/2003/SVGExtensions/"@ || uri
        == "http://www.figma.com/figma/ns"@ || uri == "http://www.serif.com/"@
}

/// Whether `attrs` declare the prefix `p` for an editor's namespace.
pub open spec fn is_editor_prefix(attrs: Seq<AttrV>, p: Seq<char>) -> bool {
    exists|k: int|
        0 <= k < attrs.len() && (#[trigger] attrs[k]).prefix == Some("xmlns"@) && attrs[k].name
            == p && is_editor_ns(attrs[k].value)
}

/// Whether a prefix is one that `decls` bind to an editor's namespace.
pub open spec fn editor_owned(decls: Seq<AttrV>, prefix: Option<Seq<char>>) -> bool {
    match prefix {
        Some(p) => is_editor_prefix(decls, p),
        None => false,
    }
}

/// The attributes that stay, in order, and whether any was dropped.
pub open spec fn ed_attrs(s: Seq<AttrV>, decls: Seq<AttrV>) -> (Seq<AttrV>, bool)
    decreases s.len(),
{
    if s.len() == 0 {
        (Seq::empty(), false)
    } else {
        let (r, c) = ed_attrs(s.drop_last(), decls);
        if editor_owned(decls, s.last().prefix) {
            (r, true)
        } else {
            (r.push(s.last()), c)
        }
    }
}

/// The nodes without editor elements and attributes, at every depth (what a
/// `<foreignObject>` holds excepted), and whether anything was dropped.
pub open spec fn ed_tree(s: Seq<NodeV>, decls: Seq<AttrV>) -> (Seq<NodeV>, bool)
    decreases s,
{
    if s.len() == 0 {
        (Seq::empty(), false)
    } else {
        let (r, c) = ed_tree(s.drop_last(), decls);
        let n = s.last();
        match n {
            NodeV::Element(e) => {
                if editor_owned(decls, e.prefix) {
                    (r, true)
                } else if is_foreign_name(e.name) {
                    (r.push(n), c)
                } else {
                    let (attrs, c1) = ed_attrs(e.attrs, decls);
                    let (kids, c2) = ed_tree(e.children, decls);
                    (r.push(NodeV::Element(ElemV { attrs, children: kids, ..e })), c || c1 || c2)
                }
            },
            _ => (r.push(n), c),
        }
    }
}

/// The top-level nodes, each `<svg>` element cleaned by its own declarations, and
/// whether anything was dropped.
pub open spec fn ed_nodes(s: Seq<NodeV>) -> (Seq<NodeV>, bool)
    decreases s.len(),
{
    if s.len() == 0 {
        (Seq::empty(), false)
    } else {
        let (r, c) = ed_nodes(s.drop_last());
        let n = s.last();
        match n {
            NodeV::Element(e) => {
                if e.name == "svg"@ {
                    let (attrs, c1) = ed_attrs(e.attrs, e.attrs);
                    let (kids, c2) = ed_tree(e.children, e.attrs);
                    (r.push(NodeV::Element(ElemV { attrs, children: kids, ..e })), c || c1 || c2)
                } else {
                    (r.push(n), c)
                }
            },
            _ => (r.push(n), c),
        }
    }
}

proof fn lemma_ed_attrs_unchanged(s: Seq<AttrV>, decls: Seq<AttrV>)
    requires
        !ed_attrs(s, decls).1,
    ensures
        ed_attrs(s, decls).0 == s,
    decreases s.len(),
{
    if s.len() > 0 {
        lemma_ed_attrs_unchanged(s.drop_last(), decls);
        assert(ed_attrs(s, decls).0 =~= s);
    }
}

proof fn lemma_ed_tree_unchanged(s: Seq<NodeV>, decls: Seq<AttrV>)
    requires
        !ed_tree(s, decls).1,
    ensures
        ed_tree(s, decls).0 == s,
    decreases s,
{
    if s.len() > 0 {
        lemma_ed_tree_unchanged(s.drop_last(), decls);
        match s.last() {
            NodeV::Element(e) => {
                if !editor_owned(decls, e.prefix) && !is_foreign_name(e.name) {
                    lemma_ed_attrs_unchanged(e.attrs, decls);
                    lemma_ed_tree_unchanged(e.children, decls);
                }
            },
            _ => {},
        }
        assert(ed_tree(s, decls).0 =~= s);
    }
}

proof fn lemma_ed_unchanged(s: Seq<NodeV>)
    requires
        !ed_nodes(s).1,
    ensures
        ed_nodes(s).0 == s,
    decreases s.len(),
{
    if s.len() > 0 {
        lemma_ed_unchanged(s.drop_last());
        match s.last() {
            NodeV::Element(e) => {
                if e.name == "svg"@ {
                    lemma_ed_attrs_unchanged(e.attrs, e.attrs);
                    lemma_ed_tree_unchanged(e.children, e.attrs);
                }
            },
            _ => {},
        }
        assert(ed_nodes(s).0 =~= s);
    }
}

fn is_editor_ns_exec(uri: &str) -> (b: bool)
    ensures
        b == is_editor_ns(uri@),
{
    str_eq(uri, "http://inkscape.sourceforge.net/DTD/sodipodi-0.dtd") || str_eq(
        uri,
        "http://sodipodi.sourceforge.net/DTD/sodipodi-0.dtd",
    ) || str_eq(uri, "http://www.inkscape.org/namespaces/inkscape") || str_eq(
        uri,
        "http://www.bohemiancoding.com/sketch/ns",
    ) || str_eq(uri, "http://ns.adobe.com/AdobeIllustrator/10.0/") || str_eq(
        uri,
        "http://ns.adobe.com/Graphs/1.0/",
    ) || str_eq(uri, "http://ns.adobe.com/AdobeSVGViewerExtensions/3.0/") || str_eq(
        uri,
        "http://ns.adobe.com/Variables/1.0/",
    ) || str_eq(uri, "http://ns.adobe.com/SaveForWeb/1.0/") || str_eq(
        uri,
        "http://ns.adobe.com/Extensibility/1.0/",
    ) || str_eq(uri, "http://ns.adobe.com/Flows/1.0/") || str_eq(
        uri,
        "http://ns.adobe.com/ImageReplacement/1.0/",
    ) || str_eq(uri, "http://ns.adobe.com/GenericCustomNamespace/1.0/") || str_eq(
        uri,
        "http://ns.adobe.com/XPath/1.0/",
    ) || str_eq(uri, "http://schemas.microsoft.com/visio/2003/SVGExtensions/") || str_eq(
        uri,
        "http://www.figma.com/figma/ns",
    ) || str_eq(uri, "http://www.serif.com/")
}

fn is_editor_prefix_exec(decls: &Vec<Attribute>, p: &String) -> (b: bool)
    ensures
        b == is_editor_prefix(attrs_view(decls@), p@),
{
    proof {
        lemma_attrs_view(decls@);
    }
    let ghost av = attrs_view(decls@);
    let mut i: usize = 0;
    while i < decls.len()
        invariant
            av == attrs_view(decls@),
            av.len() == decls@.len(),
            forall|k: int| 0 <= k < decls@.len() ==> #[trigger] av[k] == decls@[k]@,
            0 <= i <= decls@.len(),
            forall|k: int|
                0 <= k < i ==> !((#[trigger] av[k]).prefix == Some("xmlns"@) && av[k].name == p@
                    && is_editor_ns(av[k].value)),
        decreases decls@.len() - i,
    {
        assert(av[i as int] == decls[i as int]@);
        let a = &decls[i];
        let is_decl = match &a.prefix {
            Some(q) => is_lit(q, "xmlns"),
            None => false,
        };
        if is_decl && str_eq(a.name.as_str(), p.as_str()) && is_editor_ns_exec(a.value.as_str()) {
            return true;
        }
        i += 1;
    }
    false
}

fn editor_owned_exec(decls: &Vec<Attribute>, prefix: &Option<String>) -> (b: bool)
    ensures
        b == editor_owned(attrs_view(decls@), opt_view(*prefix)),
{
    match prefix {
        Some(p) => is_editor_prefix_exec(decls, p),
        None => false,
    }
}

fn ed_attrs_exec(v: &Vec<Attribute>, decls: &Vec<Attribute>) -> (r: (Vec<Attribute>, bool))
    ensures
        (attrs_view(r.0@), r.1) == ed_attrs(attrs_view(v@), attrs_view(decls@)),
{
    let mut out: Vec<Attribute> = Vec::new();
    let mut changed = false;
    let mut i: usize = 0;
    while i < v.len()
        invariant
            0 <= i <= v@.len(),
            (attrs_view(out@), changed) == ed_attrs(
                attrs_view(v@.take(i as int)),
                attrs_view(decls@),
            ),
        decreases v@.len() - i,
    {
        proof {
            assert(v@.take(i + 1) =~= v@.take(i as int).push(v@[i as int]));
            lemma_attrs_view_push(v@.take(i as int), v@[i as int]);
            let pre = attrs_view(v@.take(i as int));
            let cur = attrs_view(v@.take(i + 1));
            assert(cur.drop_last() =~= pre);
            assert(cur.last() == v@[i as int]@);
        }
        if editor_owned_exec(decls, &v[i].prefix) {
            changed = true;
        } else {
            let a = clone_attr(&v[i]);
            proof {
                lemma_attrs_view_push(out@, a);
            }
            out.push(a);
        }
        i += 1;
    }
    proof {
        assert(v@.take(v@.len() as int) =~= v@);
    }
    (out, changed)
}

fn ed_tree_exec(v: &Vec<Node>, decls: &Vec<Attribute>) -> (r: (Vec<Node>, bool))
    ensures
        (nodes_view(r.0@), r.1) == ed_tree(nodes_view(v@), attrs_view(decls@)),
    decreases v,
{
    let mut out: Vec<Node> = Vec::new();
    let mut changed = false;
    let mut i: usize = 0;
    while i < v.len()
        invariant
            0 <= i <= v@.len(),
            (nodes_view(out@), changed) == ed_tree(
                nodes_view(v@.take(i as int)),
                attrs_view(decls@),
            ),
        decreases v@.len() - i,
    {
        proof {
            lemma_take_push(v@, i as int);
        }
        match &v[i] {
            Node::Element(e) => {
                if editor_owned_exec(decls, &e.prefix) {
                    changed = true;
                } else if is_foreign_exec(&e.name) {
                    let n = clone_node(&v[i]);
                    proof {
                        lemma_nodes_view_push(out@, n);
                    }
                    out.push(n);
                } else {
                    let (attributes, c1) = ed_attrs_exec(&e.attributes, decls);
                    let (children, c2) = ed_tree_exec(&e.children, decls);
                    let n = Node::Element(
                        Element { prefix: clone_opt(&e.prefix), name: e.name.clone(), attributes, children },
                    );
                    proof {
                        lemma_nodes_view_push(out@, n);
                    }
                    out.push(n);
                    changed = changed || c1 || c2;
                }
            },
            other => {
                let n = clone_node(other);
                proof {
                    lemma_nodes_view_push(out@, n);
                }
                out.push(n);
            },
        }
        i += 1;
    }
    proof {
        lemma_take_all(v@);
    }
    (out, changed)
}

fn ed_exec(v: &Vec<Node>) -> (r: (Vec<Node>, bool))
    ensures
        (nodes_view(r.0@), r.1) == ed_nodes(nodes_view(v@)),
{
    let mut out: Vec<Node> = Vec::new();
    let mut changed = false;
    let mut i: usize = 0;
    while i < v.len()
        invariant
            0 <= i <= v@.len(),
            (nodes_view(out@), changed) == ed_nodes(nodes_view(v@.take(i as int))),
        decreases v@.len() - i,
    {
        proof {
            lemma_take_push(v@, i as int);
        }
        match &v[i] {
            Node::Element(e) => {
                if is_lit(&e.name, "svg") {
                    let (attributes, c1) = ed_attrs_exec(&e.attributes, &e.attributes);
                    let (children, c2) = ed_tree_exec(&e.children, &e.attributes);
                    let n = Node::Element(
                        Element { prefix: clone_opt(&e.prefix), name: e.name.clone(), attributes, children },
                    );
                    proof {
                        lemma_nodes_view_push(out@, n);
                    }
                    out.push(n);
                    changed = changed || c1 || c2;
                } else {
                    let n = clone_node(&v[i]);
                    proof {
                        lemma_nodes_view_push(out@, n);
                    }
                    out.push(n);
                }
            },
            other => {
                let n = clone_node(other);
                proof {
                    lemma_nodes_view_push(out@, n);
                }
                out.push(n);
            },
        }
        i += 1;
    }
    proof {
        lemma_take_all(v@);
    }
    (out, changed)
}

impl Pass for RemoveEditorData {
    open spec fn apply(&self, d: Seq<NodeV>) -> Seq<NodeV> {
        ed_nodes(d).0
    }

    open spec fn reports_change(&self, d: Seq<NodeV>) -> bool {
        ed_nodes(d).1
    }

    open spec fn pass_name(&self) -> Seq<char> {
        "removeEditorData"@
    }

    fn name(&self) -> (r: &'static str) {
        "removeEditorData"
    }

    fn run(&self, doc: &mut Document) -> (r: PassResult) {
        let (children, changed) = ed_exec(&doc.children);
        doc.children = children;
        result_from(changed)
    }

    proof fn lemma_unchanged(&self, d: Seq<NodeV>) {
        lemma_ed_unchanged(d);
    }
}

} // verus!

use vstd::prelude::*;

use super::{result_from, Pass, PassResult};
use crate::ast::{is_foreign_exec, is_foreign_name, attrs_view, clone_attrs, clone_node, clone_opt, lemma_attrs_view, lemma_attrs_view_add, lemma_nodes_view_add, lemma_nodes_view_len, lemma_nodes_view_push, lemma_take_all, lemma_take_push, nodes_view, AttrV, Attribute, Document, ElemV, Element, Node, NodeV};
use crate::text::{is_lit, str_eq};

verus! {

broadcast use vstd::std_specs::vec::group_vec_axioms;

/// Removes useless `<g>` wrappers.
pub struct CollapseGroups;

/// Whether some attribute (whatever its prefix) has this name.
pub open spec fn has_attr_named(attrs: Seq<AttrV>, name: Seq<char>) -> bool {
    exists|i: int| 0 <= i < attrs.len() && (#[trigger] attrs[i]).name == name
}

/// Whether the child already holds an attribute of the group (same name and prefix).
pub open spec fn conflicts(g: AttrV, child: Seq<AttrV>) -> bool {
    exists|j: int| 0 <= j < child.len() && (#[trigger] child[j]).name == g.name && child[j].prefix
        == g.prefix
}

/// Whether a group's attributes reference other content (`clip-path`, `mask`, `filter`):
/// such a group is never collapsed.
pub open spec fn references_content(attrs: Seq<AttrV>) -> bool {
    has_attr_named(attrs, "clip-path"@) || has_attr_named(attrs, "mask"@) || has_attr_named(
        attrs,
        "filter"@,
    )
}

/// Group attributes can move to the child when none of them is already on the child.
pub open spec fn can_merge_attrs(group: Seq<AttrV>, child: Seq<AttrV>) -> bool {
    forall|i: int| 0 <= i < group.len() ==> !conflicts(#[trigger] group[i], child)
}

/// A node after collapsing the groups inside it: the nodes that stand in its place,
/// and whether anything was collapsed.
/// Inner groups are collapsed first.  A `<g>` with no attributes and no prefix is replaced
/// by its children; a `<g>` with a single child that is an element, without a `transform`
/// attribute nor one that references other content, and whose attributes the child does
/// not already have, is replaced by the child carrying the group's attributes after its
/// own. What a `<foreignObject>` holds is left as it is.
pub open spec fn cg_node(n: NodeV) -> (Seq<NodeV>, bool)
    decreases n,
{
    match n {
        NodeV::Element(e) => {
            let (kids, c) = if is_foreign_name(e.name) {
                (e.children, false)
            } else {
                cg_nodes(e.children)
            };
            if e.name == "g"@ && e.attrs.len() == 0 && e.prefix is None {
                (kids, true)
            } else if e.name == "g"@ && kids.len() == 1 && kids[0] is Element && !has_attr_named(
                e.attrs,
                "transform"@,
            ) && !references_content(e.attrs) && can_merge_attrs(e.attrs, kids[0]->Element_0.attrs) {
                let child = kids[0]->Element_0;
                (seq![NodeV::Element(ElemV { attrs: child.attrs + e.attrs, ..child })], true)
            } else {
                (seq![NodeV::Element(ElemV { children: kids, ..e })], c)
            }
        },
        _ => (seq![n], false),
    }
}

pub open spec fn cg_nodes(s: Seq<NodeV>) -> (Seq<NodeV>, bool)
    decreases s,
{
    if s.len() == 0 {
        (Seq::empty(), false)
    } else {
        let (r, c) = cg_nodes(s.drop_last());
        let (parts, c2) = cg_node(s.last());
        (r + parts, c || c2)
    }
}

proof fn lemma_cg_node_unchanged(n: NodeV)
    requires
        !cg_node(n).1,
    ensures
        cg_node(n).0 == seq![n],
    decreases n,
{
    match n {
        NodeV::Element(e) => {
            if !is_foreign_name(e.name) {
                lemma_cg_nodes_unchanged(e.children);
            }
            assert(ElemV { children: e.children, ..e } == e);
        },
        _ => {},
    }
}

proof fn lemma_cg_nodes_unchanged(s: Seq<NodeV>)
    requires
        !cg_nodes(s).1,
    ensures
        cg_nodes(s).0 == s,
    decreases s,
{
    if s.len() > 0 {
        lemma_cg_nodes_unchanged(s.drop_last());
        lemma_cg_node_unchanged(s.last());
        assert(cg_nodes(s).0 =~= s);
    }
}

/// No two attributes share a prefix and a name.
pub open spec fn keys_unique(attrs: Seq<AttrV>) -> bool {
    forall|i: int, j: int|
        0 <= i < j < attrs.len() ==> !((#[trigger] attrs[i]).prefix == (#[trigger] attrs[j]).prefix
            && attrs[i].name == attrs[j].name)
}

/// Every element of the nodes, at every depth, has attributes with unique prefixes and
/// names.
pub open spec fn tree_keys_unique(s: Seq<NodeV>) -> bool
    decreases s,
{
    if s.len() == 0 {
        true
    } else {
        tree_keys_unique(s.drop_last()) && match s.last() {
            NodeV::Element(e) => keys_unique(e.attrs) && tree_keys_unique(e.children),
            _ => true,
        }
    }
}

proof fn lemma_tree_unique_add(a: Seq<NodeV>, b: Seq<NodeV>)
    requires
        tree_keys_unique(a),
        tree_keys_unique(b),
    ensures
        tree_keys_unique(a + b),
    decreases b.len(),
{
    if b.len() == 0 {
        assert(a + b =~= a);
    } else {
        lemma_tree_unique_add(a, b.drop_last());
        assert((a + b).drop_last() =~= a + b.drop_last());
        assert((a + b).last() == b.last());
    }
}

proof fn lemma_tree_unique_one(n: NodeV)
    ensures
        tree_keys_unique(seq![n]) == match n {
            NodeV::Element(e) => keys_unique(e.attrs) && tree_keys_unique(e.children),
            _ => true,
        },
{
    let one = seq![n];
    assert(one.drop_last() =~= Seq::<NodeV>::empty());
    assert(one.last() == n);
    assert(tree_keys_unique(Seq::<NodeV>::empty()));
}

/// Folding a group into its child keeps names unique where nothing of the group is on the
/// child already.
proof fn lemma_fold_unique(child: Seq<AttrV>, group: Seq<AttrV>)
    requires
        keys_unique(child),
        keys_unique(group),
        can_merge_attrs(group, child),
    ensures
        keys_unique(child + group),
{
    let m = child + group;
    assert forall|i: int, j: int| 0 <= i < j < m.len() implies !((#[trigger] m[i]).prefix == (
    #[trigger] m[j]).prefix && m[i].name == m[j].name) by {
        if j >= child.len() && i < child.len() {
            let g = group[j - child.len()];
            assert(m[j] == g);
            assert(m[i] == child[i]);
            assert(!conflicts(g, child));
        } else if i >= child.len() {
            assert(m[i] == group[i - child.len()]);
            assert(m[j] == group[j - child.len()]);
        } else {
            assert(m[i] == child[i]);
            assert(m[j] == child[j]);
        }
    }
}

/// Collapsing groups never gives an element two attributes of one prefix and name: where
/// every element of the input has unique attribute names, so does every element of the
/// output.
pub proof fn lemma_collapse_keeps_keys_unique(s: Seq<NodeV>)
    requires
        tree_keys_unique(s),
    ensures
        tree_keys_unique(cg_nodes(s).0),
    decreases s,
{
    if s.len() > 0 {
        lemma_collapse_keeps_keys_unique(s.drop_last());
        lemma_tree_unique_one(s.last());
        lemma_collapse_node_unique(s.last());
        lemma_tree_unique_add(cg_nodes(s.drop_last()).0, cg_node(s.last()).0);
    }
}

proof fn lemma_collapse_node_unique(n: NodeV)
    requires
        tree_keys_unique(seq![n]),
    ensures
        tree_keys_unique(cg_node(n).0),
    decreases n,
{
    lemma_tree_unique_one(n);
    match n {
        NodeV::Element(e) => {
            if !is_foreign_name(e.name) {
                lemma_collapse_keeps_keys_unique(e.children);
            }
            let kids = if is_foreign_name(e.name) {
                e.children
            } else {
                cg_nodes(e.children).0
            };
            if e.name == "g"@ && e.attrs.len() == 0 && e.prefix is None {
            } else if e.name == "g"@ && kids.len() == 1 && kids[0] is Element && !has_attr_named(
                e.attrs,
                "transform"@,
            ) && !references_content(e.attrs) && can_merge_attrs(e.attrs, kids[0]->Element_0.attrs) {
                let child = kids[0]->Element_0;
                assert(kids =~= seq![kids[0]]);
                lemma_tree_unique_one(kids[0]);
                lemma_fold_unique(child.attrs, e.attrs);
                let out = NodeV::Element(ElemV { attrs: child.attrs + e.attrs, ..child });
                lemma_tree_unique_one(out);
            } else {
                let out = NodeV::Element(ElemV { children: kids, ..e });
                lemma_tree_unique_one(out);
            }
        },
        _ => {},
    }
}

fn has_attr_named_exec(attrs: &Vec<Attribute>, name: &str) -> (b: bool)
    ensures
        b == has_attr_named(attrs_view(attrs@), name@),
{
    proof {
        lemma_attrs_view(attrs@);
    }
    let mut i: usize = 0;
    while i < attrs.len()
        invariant
            0 <= i <= attrs@.len(),
            attrs_view(attrs@).len() == attrs@.len(),
            forall|k: int| 0 <= k < attrs@.len() ==> #[trigger] attrs_view(attrs@)[k] == attrs@[k]@,
            forall|j: int| 0 <= j < i ==> (#[trigger] attrs_view(attrs@)[j]).name != name@,
        decreases attrs@.len() - i,
    {
        if str_eq(attrs[i].name.as_str(), name) {
            assert(attrs_view(attrs@)[i as int].name == name@);
            return true;
        }
        i += 1;
    }
    false
}

fn same_opt(a: &Option<String>, b: &Option<String>) -> (r: bool)
    ensures
        r == (crate::ast::opt_view(*a) == crate::ast::opt_view(*b)),
{
    match (a, b) {
        (Some(x), Some(y)) => str_eq(x.as_str(), y.as_str()),
        (None, None) => true,
        _ => false,
    }
}

/// Check if group attributes can be safely merged into the child element.
/// Returns false if there are attribute name conflicts.
fn can_merge_attrs_exec(group: &Vec<Attribute>, child: &Vec<Attribute>) -> (b: bool)
    ensures
        b == can_merge_attrs(attrs_view(group@), attrs_view(child@)),
{
    proof {
        lemma_attrs_view(group@);
        lemma_attrs_view(child@);
    }
    let ghost gv = attrs_view(group@);
    let ghost cv = attrs_view(child@);
    let mut i: usize = 0;
    while i < group.len()
        invariant
            0 <= i <= group@.len(),
            gv == attrs_view(group@),
            cv == attrs_view(child@),
            gv.len() == group@.len(),
            cv.len() == child@.len(),
            forall|k: int| 0 <= k < group@.len() ==> #[trigger] gv[k] == group@[k]@,
            forall|k: int| 0 <= k < child@.len() ==> #[trigger] cv[k] == child@[k]@,
            forall|k: int| 0 <= k < i ==> !conflicts(#[trigger] gv[k], cv),
        decreases group@.len() - i,
    {
        let g = &group[i];
        let mut j: usize = 0;
        while j < child.len()
            invariant
                0 <= i < group@.len(),
                0 <= j <= child@.len(),
                gv == attrs_view(group@),
                cv == attrs_view(child@),
                gv.len() == group@.len(),
                cv.len() == child@.len(),
                forall|k: int| 0 <= k < child@.len() ==> #[trigger] cv[k] == child@[k]@,
                g@ == gv[i as int],
                forall|k: int|
                    0 <= k < j ==> !((#[trigger] cv[k]).name == gv[i as int].name && cv[k].prefix
                        == gv[i as int].prefix),
            decreases child@.len() - j,
        {
            let c = &child[j];
            assert(c@ == cv[j as int]);
            if str_eq(c.name.as_str(), g.name.as_str()) && same_opt(&c.prefix, &g.prefix) {
                assert(conflicts(gv[i as int], cv));
                return false;
            }
            j += 1;
        }
        i += 1;
    }
    true
}

/// The nodes that stand in place of `n` once the groups in it are collapsed.
fn cg_node_exec(n: &Node) -> (r: (Vec<Node>, bool))
    ensures
        (nodes_view(r.0@), r.1) == cg_node(n@),
    decreases n, 1int,
{
    match n {
        Node::Element(e) => {
            let (mut kids, c) = if is_foreign_exec(&e.name) {
                (crate::ast::clone_nodes(&e.children), false)
            } else {
                cg_nodes_exec(&e.children)
            };
            proof {
                lemma_nodes_view_len(kids@);
            }
            let is_g = is_lit(&e.name, "g");
            if is_g && e.attributes.len() == 0 && e.prefix.is_none() {
                proof {
                    lemma_attrs_view(e.attributes@);
                }
                return (kids, true);
            }
            proof {
                lemma_attrs_view(e.attributes@);
            }
            let refs = has_attr_named_exec(&e.attributes, "clip-path") || has_attr_named_exec(
                &e.attributes,
                "mask",
            ) || has_attr_named_exec(&e.attributes, "filter");
            proof {
                reveal_strlit("clip-path");
                reveal_strlit("mask");
                reveal_strlit("filter");
            }
            if is_g && kids.len() == 1 && !has_attr_named_exec(&e.attributes, "transform") && !refs {
                let k = kids.pop().unwrap();
                proof {
                    assert(nodes_view(kids@.push(k)) == nodes_view(kids@).push(k@)) by {
                        lemma_nodes_view_push(kids@, k);
                    }
                }
                match k {
                    Node::Element(child) => {
                        if can_merge_attrs_exec(&e.attributes, &child.attributes) {
                            let mut attributes = child.attributes;
                            let mut extra = clone_attrs(&e.attributes);
                            let ghost a1 = attributes@;
                            let ghost a2 = extra@;
                            attributes.append(&mut extra);
                            proof {
                                lemma_attrs_view_add(a1, a2);
                            }
                            let merged = Node::Element(
                                Element {
                                    prefix: child.prefix,
                                    name: child.name,
                                    attributes,
                                    children: child.children,
                                },
                            );
                            let mut out: Vec<Node> = Vec::new();
                            proof {
                                lemma_nodes_view_push(out@, merged);
                            }
                            out.push(merged);
                            assert(nodes_view(out@) =~= seq![merged@]);
                            return (out, true);
                        }
                        let back = Node::Element(child);
                        proof {
                            lemma_nodes_view_push(kids@, back);
                        }
                        kids.push(back);
                    },
                    other => {
                        proof {
                            lemma_nodes_view_push(kids@, other);
                        }
                        kids.push(other);
                    },
                }
            }
            let ne = Node::Element(
                Element {
                    prefix: clone_opt(&e.prefix),
                    name: e.name.clone(),
                    attributes: clone_attrs(&e.attributes),
                    children: kids,
                },
            );
            let mut out: Vec<Node> = Vec::new();
            proof {
                lemma_nodes_view_push(out@, ne);
            }
            out.push(ne);
            assert(nodes_view(out@) =~= seq![ne@]);
            (out, c)
        },
        _ => {
            let m = clone_node(n);
            let mut out: Vec<Node> = Vec::new();
            proof {
                lemma_nodes_view_push(out@, m);
            }
            out.push(m);
            assert(nodes_view(out@) =~= seq![m@]);
            (out, false)
        },
    }
}

fn cg_nodes_exec(v: &Vec<Node>) -> (r: (Vec<Node>, bool))
    ensures
        (nodes_view(r.0@), r.1) == cg_nodes(nodes_view(v@)),
    decreases v, 0int,
{
    let mut out: Vec<Node> = Vec::new();
    let mut changed = false;
    let mut i: usize = 0;
    while i < v.len()
        invariant
            0 <= i <= v@.len(),
            (nodes_view(out@), changed) == cg_nodes(nodes_view(v@.take(i as int))),
        decreases v@.len() - i,
    {
        let (mut parts, c) = cg_node_exec(&v[i]);
        proof {
            lemma_take_push(v@, i as int);
            lemma_nodes_view_add(out@, parts@);
        }
        out.append(&mut parts);
        changed = changed || c;
        i += 1;
    }
    proof {
        lemma_take_all(v@);
    }
    (out, changed)
}

impl Pass for CollapseGroups {
    open spec fn apply(&self, d: Seq<NodeV>) -> Seq<NodeV> {
        cg_nodes(d).0
    }

    open spec fn reports_change(&self, d: Seq<NodeV>) -> bool {
        cg_nodes(d).1
    }

    open spec fn pass_name(&self) -> Seq<char> {
        "collapseGroups"@
    }

    fn name(&self) -> (r: &'static str) {
        "collapseGroups"
    }

    fn run(&self, doc: &mut Document) -> (r: PassResult) {
        let (children, changed) = cg_nodes_exec(&doc.children);
        doc.children = children;
        result_from(changed)
    }

    proof fn lemma_unchanged(&self, d: Seq<NodeV>) {
        lemma_cg_nodes_unchanged(d);
    }
}

} // verus!

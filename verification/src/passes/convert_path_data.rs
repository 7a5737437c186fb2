use vstd::prelude::*;

use super::{result_from, Pass, PassResult};
use crate::ast::{is_foreign_exec, is_foreign_name, 
    attrs_view, clone_attrs, clone_node, clone_opt, lemma_attrs_view, lemma_nodes_view_push,
    lemma_take_all, lemma_take_push, nodes_view, AttrV, Attribute, Document, ElemV, Element, Node,
    NodeV,
};
use crate::text::{chars_of, is_lit, is_none_str};

use crate::path::{optimize_path, sp_optimize_path};

verus! {

broadcast use vstd::std_specs::vec::group_vec_axioms;

/// Rewrites the `d` attribute of every element with its optimized path text, where that
/// text is shorter.
pub struct ConvertPathData {
    pub precision: u32,
}

impl Default for ConvertPathData {
    fn default() -> (r: Self)
        ensures
            r.precision == 3,
    {
        Self { precision: 3 }
    }
}

pub open spec fn is_d_attr(a: AttrV) -> bool {
    a.name == "d"@ && a.prefix is None
}

/// The place of the first `d` attribute (without prefix) at or after `k`.
pub open spec fn first_d_from(s: Seq<AttrV>, k: int) -> Option<int>
    decreases s.len() - k,
{
    if k < 0 || k >= s.len() {
        None
    } else if is_d_attr(s[k]) {
        Some(k)
    } else {
        first_d_from(s, k + 1)
    }
}

pub proof fn lemma_first_d_range(s: Seq<AttrV>, k: int)
    requires
        0 <= k,
    ensures
        first_d_from(s, k) matches Some(i) ==> k <= i < s.len() && is_d_attr(s[i]) && forall|j: int|
            k <= j < i ==> !is_d_attr(#[trigger] s[j]),
    decreases s.len() - k,
{
    if k < s.len() && !is_d_attr(s[k]) {
        lemma_first_d_range(s, k + 1);
    }
}

/// The attributes with the first `d` value replaced by its optimized text where that is
/// shorter, and whether it was replaced.
pub open spec fn cpd_attrs(s: Seq<AttrV>, p: nat) -> (Seq<AttrV>, bool) {
    match first_d_from(s, 0) {
        None => (s, false),
        Some(i) => match sp_optimize_path(s[i].value, p) {
            Some(o) => if o.len() < s[i].value.len() {
                (s.update(i, AttrV { value: o, ..s[i] }), true)
            } else {
                (s, false)
            },
            None => (s, false),
        },
    }
}

pub open spec fn cpd_node(n: NodeV, p: nat) -> (NodeV, bool)
    decreases n,
{
    match n {
        NodeV::Element(e) => {
            let (attrs, c1) = cpd_attrs(e.attrs, p);
            let (children, c2) = if is_foreign_name(e.name) {
                (e.children, false)
            } else {
                cpd_nodes(e.children, p)
            };
            (NodeV::Element(ElemV { attrs, children, ..e }), c1 || c2)
        },
        _ => (n, false),
    }
}

pub open spec fn cpd_nodes(s: Seq<NodeV>, p: nat) -> (Seq<NodeV>, bool)
    decreases s,
{
    if s.len() == 0 {
        (Seq::empty(), false)
    } else {
        let (r, c) = cpd_nodes(s.drop_last(), p);
        let (n, c2) = cpd_node(s.last(), p);
        (r.push(n), c || c2)
    }
}

proof fn lemma_cpd_node_unchanged(n: NodeV, p: nat)
    requires
        !cpd_node(n, p).1,
    ensures
        cpd_node(n, p).0 == n,
    decreases n,
{
    match n {
        NodeV::Element(e) => {
            if !is_foreign_name(e.name) {
                lemma_cpd_nodes_unchanged(e.children, p);
            }
        },
        _ => {},
    }
}

proof fn lemma_cpd_nodes_unchanged(s: Seq<NodeV>, p: nat)
    requires
        !cpd_nodes(s, p).1,
    ensures
        cpd_nodes(s, p).0 == s,
    decreases s,
{
    if s.len() > 0 {
        lemma_cpd_nodes_unchanged(s.drop_last(), p);
        lemma_cpd_node_unchanged(s.last(), p);
        assert(cpd_nodes(s, p).0 =~= s);
    }
}

/// The first `d` attribute without prefix is rewritten, never one after it, and the value
/// only ever gets shorter.
pub proof fn lemma_cpd_attrs_shorter(s: Seq<AttrV>, p: nat)
    ensures
        cpd_attrs(s, p).0.len() == s.len(),
        forall|j: int|
            0 <= j < s.len() ==> #[trigger] cpd_attrs(s, p).0[j].value.len() <= s[j].value.len(),
        cpd_attrs(s, p).1 ==> (first_d_from(s, 0) matches Some(i) && cpd_attrs(s, p).0[i].value.len()
            < s[i].value.len()),
{
    lemma_first_d_range(s, 0);
}

fn first_d_exec(v: &Vec<Attribute>) -> (r: Option<usize>)
    ensures
        r matches Some(i) ==> first_d_from(attrs_view(v@), 0) == Some(i as int),
        r is None ==> first_d_from(attrs_view(v@), 0) is None,
{
    let ghost s = attrs_view(v@);
    proof {
        lemma_attrs_view(v@);
    }
    let mut k: usize = 0;
    while k < v.len()
        invariant
            0 <= k <= v@.len(),
            s == attrs_view(v@),
            s.len() == v@.len(),
            forall|j: int| 0 <= j < s.len() ==> #[trigger] s[j] == v@[j]@,
            first_d_from(s, 0) == first_d_from(s, k as int),
        decreases v@.len() - k,
    {
        let a = &v[k];
        if is_lit(&a.name, "d") && is_none_str(&a.prefix) {
            proof {
                reveal_strlit("d");
                assert(s[k as int] == a@);
            }
            return Some(k);
        }
        proof {
            reveal_strlit("d");
            assert(s[k as int] == a@);
        }
        k = k + 1;
    }
    None
}

/// The attributes with the first `d` value rewritten where that is shorter.
fn cpd_attr_list(v: &Vec<Attribute>, p: u32) -> (r: (Vec<Attribute>, bool))
    ensures
        (attrs_view(r.0@), r.1) == cpd_attrs(attrs_view(v@), p as nat),
{
    let mut out = clone_attrs(v);
    proof {
        lemma_first_d_range(attrs_view(v@), 0);
        lemma_attrs_view(v@);
        lemma_attrs_view(out@);
    }
    match first_d_exec(v) {
        None => (out, false),
        Some(i) => {
            let a = &v[i];
            proof {
                lemma_attrs_view(v@);
            }
            match optimize_path(a.value.as_str(), p) {
                Some(o) => {
                    let new_len = chars_of(o.as_str()).len();
                    let old_len = chars_of(a.value.as_str()).len();
                    if new_len < old_len {
                        let na = Attribute {
                            prefix: clone_opt(&a.prefix),
                            name: a.name.clone(),
                            value: o,
                        };
                        let ghost before = out@;
                        out.set(i, na);
                        proof {
                            lemma_attrs_view(before);
                            lemma_attrs_view(out@);
                            assert(attrs_view(out@) =~= attrs_view(v@).update(
                                i as int,
                                AttrV { value: na.value@, ..attrs_view(v@)[i as int] },
                            ));
                        }
                        (out, true)
                    } else {
                        (out, false)
                    }
                },
                None => (out, false),
            }
        },
    }
}

fn cpd_node_exec(n: &Node, p: u32) -> (r: (Node, bool))
    ensures
        (r.0@, r.1) == cpd_node(n@, p as nat),
    decreases n, 1int,
{
    match n {
        Node::Element(e) => {
            let (attributes, c1) = cpd_attr_list(&e.attributes, p);
            let (children, c2) = if is_foreign_exec(&e.name) {
                (crate::ast::clone_nodes(&e.children), false)
            } else {
                cpd_nodes_exec(&e.children, p)
            };
            let ne = Element {
                prefix: clone_opt(&e.prefix),
                name: e.name.clone(),
                attributes,
                children,
            };
            (Node::Element(ne), c1 || c2)
        },
        _ => (clone_node(n), false),
    }
}

fn cpd_nodes_exec(v: &Vec<Node>, p: u32) -> (r: (Vec<Node>, bool))
    ensures
        (nodes_view(r.0@), r.1) == cpd_nodes(nodes_view(v@), p as nat),
    decreases v, 0int,
{
    let mut out: Vec<Node> = Vec::new();
    let mut changed = false;
    let mut i: usize = 0;
    while i < v.len()
        invariant
            0 <= i <= v@.len(),
            (nodes_view(out@), changed) == cpd_nodes(nodes_view(v@.take(i as int)), p as nat),
        decreases v@.len() - i,
    {
        let (n, c) = cpd_node_exec(&v[i], p);
        proof {
            lemma_take_push(v@, i as int);
            lemma_nodes_view_push(out@, n);
        }
        out.push(n);
        changed = changed || c;
        i += 1;
    }
    proof {
        lemma_take_all(v@);
    }
    (out, changed)
}

impl Pass for ConvertPathData {
    open spec fn apply(&self, d: Seq<NodeV>) -> Seq<NodeV> {
        cpd_nodes(d, self.precision as nat).0
    }

    open spec fn reports_change(&self, d: Seq<NodeV>) -> bool {
        cpd_nodes(d, self.precision as nat).1
    }

    open spec fn pass_name(&self) -> Seq<char> {
        "convertPathData"@
    }

    fn name(&self) -> (r: &'static str) {
        "convertPathData"
    }

    fn run(&self, doc: &mut Document) -> (r: PassResult) {
        let (children, changed) = cpd_nodes_exec(&doc.children, self.precision);
        doc.children = children;
        result_from(changed)
    }

    proof fn lemma_unchanged(&self, d: Seq<NodeV>) {
        lemma_cpd_nodes_unchanged(d, self.precision as nat);
    }
}

} // verus!

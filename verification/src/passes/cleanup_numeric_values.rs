//! Rounding of numeric attribute values: a value that is one number, with or without
//! `px`, is rounded to the precision and written in its shortest form.
use vstd::prelude::*;

use super::{result_from, Pass, PassResult};
use crate::ast::{
    attrs_view, clone_node, clone_opt, is_foreign_exec, is_foreign_name, lemma_attrs_view_push,
    lemma_nodes_view_push, lemma_take_all, lemma_take_push, nodes_view, AttrV, Attribute,
    Document, ElemV, Element, Node, NodeV,
};
use crate::path::grammar::{
    is_sep, is_sep_exec, lemma_scan_progress, num_read_view, scan_number, scan_number_exec,
    NumRead, NumScan,
};
use crate::path::number::{format_num_exec, round_and_format, round_to_exec, BOUND, SCALE};
use crate::text::{chars_eq, chars_of, is_lit, is_none_str, string_from_chars};

verus! {

broadcast use vstd::std_specs::vec::group_vec_axioms;

/// Rounds numeric attribute values to `precision` decimal places.
pub struct CleanupNumericValues {
    pub precision: u32,
}

impl Default for CleanupNumericValues {
    fn default() -> (r: Self)
        ensures
            r.precision == 3,
    {
        Self { precision: 3 }
    }
}

/// The attributes whose value is a length or a number.
pub open spec fn is_numeric_attr(name: Seq<char>) -> bool {
    name == "x"@ || name == "y"@ || name == "width"@ || name == "height"@ || name == "x1"@ || name
        == "y1"@ || name == "x2"@ || name == "y2"@ || name == "cx"@ || name == "cy"@ || name == "r"@
        || name == "rx"@ || name == "ry"@ || name == "fx"@ || name == "fy"@ || name
        == "stroke-width"@ || name == "stroke-miterlimit"@ || name == "stroke-dashoffset"@ || name
        == "font-size"@ || name == "opacity"@ || name == "fill-opacity"@ || name
        == "stroke-opacity"@ || name == "stop-opacity"@
}

/// The number that a value is: one number in the held range, from its first character
/// to its end, or to a `px` that ends it.
pub open spec fn numeric_value(s: Seq<char>) -> Option<int> {
    if s.len() == 0 || is_sep(s[0]) {
        None
    } else {
        match scan_number(s, 0) {
            NumScan::Num(v, end) => if end == s.len() || (end + 2 == s.len() && s[end] == 'p'
                && s[end + 1] == 'x') {
                Some(v)
            } else {
                None
            },
            _ => None,
        }
    }
}

/// The value an attribute gets.
pub open spec fn cleaned_value(a: AttrV, p: nat) -> Seq<char> {
    if a.prefix is None && is_numeric_attr(a.name) {
        match numeric_value(a.value) {
            Some(v) => round_and_format(v, p),
            None => a.value,
        }
    } else {
        a.value
    }
}

/// The attributes with their values cleaned, and whether any value changed.
pub open spec fn cn_attrs(s: Seq<AttrV>, p: nat) -> (Seq<AttrV>, bool)
    decreases s.len(),
{
    if s.len() == 0 {
        (Seq::empty(), false)
    } else {
        let (r, c) = cn_attrs(s.drop_last(), p);
        let a = s.last();
        let v = cleaned_value(a, p);
        (r.push(AttrV { value: v, ..a }), c || v != a.value)
    }
}

/// Every element with its numeric values cleaned, at every depth (what a
/// `<foreignObject>` holds excepted), and whether any value changed.
pub open spec fn cn_nodes(s: Seq<NodeV>, p: nat) -> (Seq<NodeV>, bool)
    decreases s,
{
    if s.len() == 0 {
        (Seq::empty(), false)
    } else {
        let (r, c) = cn_nodes(s.drop_last(), p);
        let n = s.last();
        match n {
            NodeV::Element(e) => {
                if is_foreign_name(e.name) {
                    (r.push(n), c)
                } else {
                    let (attrs, c1) = cn_attrs(e.attrs, p);
                    let (kids, c2) = cn_nodes(e.children, p);
                    (r.push(NodeV::Element(ElemV { attrs, children: kids, ..e })), c || c1 || c2)
                }
            },
            _ => (r.push(n), c),
        }
    }
}

proof fn lemma_cn_attrs_unchanged(s: Seq<AttrV>, p: nat)
    requires
        !cn_attrs(s, p).1,
    ensures
        cn_attrs(s, p).0 == s,
    decreases s.len(),
{
    if s.len() > 0 {
        lemma_cn_attrs_unchanged(s.drop_last(), p);
        assert(cn_attrs(s, p).0 =~= s);
    }
}

proof fn lemma_cn_unchanged(s: Seq<NodeV>, p: nat)
    requires
        !cn_nodes(s, p).1,
    ensures
        cn_nodes(s, p).0 == s,
    decreases s,
{
    if s.len() > 0 {
        lemma_cn_unchanged(s.drop_last(), p);
        match s.last() {
            NodeV::Element(e) => {
                if !is_foreign_name(e.name) {
                    lemma_cn_attrs_unchanged(e.attrs, p);
                    lemma_cn_unchanged(e.children, p);
                }
            },
            _ => {},
        }
        assert(cn_nodes(s, p).0 =~= s);
    }
}

fn is_numeric_attr_exec(name: &String) -> (b: bool)
    ensures
        b == is_numeric_attr(name@),
{
    is_lit(name, "x") || is_lit(name, "y") || is_lit(name, "width") || is_lit(name, "height")
        || is_lit(name, "x1") || is_lit(name, "y1") || is_lit(name, "x2") || is_lit(name, "y2")
        || is_lit(name, "cx") || is_lit(name, "cy") || is_lit(name, "r") || is_lit(name, "rx")
        || is_lit(name, "ry") || is_lit(name, "fx") || is_lit(name, "fy") || is_lit(
        name,
        "stroke-width",
    ) || is_lit(name, "stroke-miterlimit") || is_lit(name, "stroke-dashoffset") || is_lit(
        name,
        "font-size",
    ) || is_lit(name, "opacity") || is_lit(name, "fill-opacity") || is_lit(
        name,
        "stroke-opacity",
    ) || is_lit(name, "stop-opacity")
}

fn numeric_value_exec(s: &Vec<char>) -> (r: Option<i128>)
    ensures
        match numeric_value(s@) {
            Some(v) => r == Some(v as i128) && -BOUND <= v <= BOUND,
            None => r is None,
        },
{
    if s.len() == 0 || is_sep_exec(s[0]) {
        return None;
    }
    proof {
        lemma_scan_progress(s@, 0);
    }
    match scan_number_exec(s, 0) {
        NumRead::Num(v, end) => {
            if end == s.len() || (end < s.len() && s.len() - end == 2 && s[end] == 'p' && s[end + 1] == 'x') {
                Some(v)
            } else {
                None
            }
        },
        _ => None,
    }
}

fn cleaned_value_exec(a: &Attribute, p: u32) -> (r: String)
    ensures
        r@ == cleaned_value(a@, p as nat),
{
    if is_none_str(&a.prefix) && is_numeric_attr_exec(&a.name) {
        let chars = chars_of(a.value.as_str());
        match numeric_value_exec(&chars) {
            Some(v) => {
                let rv = round_to_exec(v, p);
                let out = format_num_exec(rv);
                string_from_chars(&out)
            },
            None => a.value.clone(),
        }
    } else {
        a.value.clone()
    }
}

fn cn_attrs_exec(v: &Vec<Attribute>, p: u32) -> (r: (Vec<Attribute>, bool))
    ensures
        (attrs_view(r.0@), r.1) == cn_attrs(attrs_view(v@), p as nat),
{
    let mut out: Vec<Attribute> = Vec::new();
    let mut changed = false;
    let mut i: usize = 0;
    while i < v.len()
        invariant
            0 <= i <= v@.len(),
            (attrs_view(out@), changed) == cn_attrs(attrs_view(v@.take(i as int)), p as nat),
        decreases v@.len() - i,
    {
        proof {
            assert(v@.take(i + 1) =~= v@.take(i as int).push(v@[i as int]));
            lemma_attrs_view_push(v@.take(i as int), v@[i as int]);
            let pre = attrs_view(v@.take(i as int));
            let cur = attrs_view(v@.take(i + 1));
            assert(cur.drop_last() =~= pre);
            assert(cur.last() == v@[i as int]@);
        }
        let a = &v[i];
        let value = cleaned_value_exec(a, p);
        let differs = !chars_eq(&chars_of(value.as_str()), &chars_of(a.value.as_str()));
        let n = Attribute { prefix: clone_opt(&a.prefix), name: a.name.clone(), value };
        proof {
            lemma_attrs_view_push(out@, n);
        }
        out.push(n);
        changed = changed || differs;
        i += 1;
    }
    proof {
        assert(v@.take(v@.len() as int) =~= v@);
    }
    (out, changed)
}

fn cn_exec(v: &Vec<Node>, p: u32) -> (r: (Vec<Node>, bool))
    ensures
        (nodes_view(r.0@), r.1) == cn_nodes(nodes_view(v@), p as nat),
    decreases v,
{
    let mut out: Vec<Node> = Vec::new();
    let mut changed = false;
    let mut i: usize = 0;
    while i < v.len()
        invariant
            0 <= i <= v@.len(),
            (nodes_view(out@), changed) == cn_nodes(nodes_view(v@.take(i as int)), p as nat),
        decreases v@.len() - i,
    {
        proof {
            lemma_take_push(v@, i as int);
        }
        match &v[i] {
            Node::Element(e) => {
                if is_foreign_exec(&e.name) {
                    let n = clone_node(&v[i]);
                    proof {
                        lemma_nodes_view_push(out@, n);
                    }
                    out.push(n);
                } else {
                    let (attributes, c1) = cn_attrs_exec(&e.attributes, p);
                    let (children, c2) = cn_exec(&e.children, p);
                    let n = Node::Element(
                        Element { prefix: clone_opt(&e.prefix), name: e.name.clone(), attributes, children },
                    );
                    proof {
                        lemma_nodes_view_push(out@, n);
                    }
                    out.push(n);
                    changed = changed || c1 || c2;
                }
            },
            other => {
                let n = clone_node(other);
                proof {
                    lemma_nodes_view_push(out@, n);
                }
                out.push(n);
            },
        }
        i += 1;
    }
    proof {
        lemma_take_all(v@);
    }
    (out, changed)
}

impl Pass for CleanupNumericValues {
    open spec fn apply(&self, d: Seq<NodeV>) -> Seq<NodeV> {
        cn_nodes(d, self.precision as nat).0
    }

    open spec fn reports_change(&self, d: Seq<NodeV>) -> bool {
        cn_nodes(d, self.precision as nat).1
    }

    open spec fn pass_name(&self) -> Seq<char> {
        "cleanupNumericValues"@
    }

    fn name(&self) -> (r: &'static str) {
        "cleanupNumericValues"
    }

    fn run(&self, doc: &mut Document) -> (r: PassResult) {
        let (children, changed) = cn_exec(&doc.children, self.precision);
        doc.children = children;
        result_from(changed)
    }

    proof fn lemma_unchanged(&self, d: Seq<NodeV>) {
        lemma_cn_unchanged(d, self.precision as nat);
    }
}

} // verus!

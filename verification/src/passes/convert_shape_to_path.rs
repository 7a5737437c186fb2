//! Conversion of simple shapes to paths: a `<rect>` without rounded corners and a
//! `<line>`, each holding nothing, whose coordinates are plain numbers.
use vstd::prelude::*;

use super::cleanup_numeric_values::numeric_value;
use super::{result_from, Pass, PassResult};
use crate::ast::{
    attrs_view, clone_attr, clone_node, clone_opt, is_foreign_exec, is_foreign_name,
    lemma_attrs_view, lemma_attrs_view_push, lemma_nodes_view_len, lemma_nodes_view_push,
    lemma_take_all, lemma_take_push, nodes_view, AttrV, Attribute, Document, ElemV, Element, Node,
    NodeV,
};
use crate::path::grammar::{args_view, cmds_view, is_sep_exec, lemma_scan_progress, scan_number_exec, NumRead, PCmd, PathCmd};
use crate::path::number::BOUND;
use crate::path::relative::small_cmds;
use crate::path::write::{serialize_path, serialize_path_exec};
use crate::text::{is_lit, str_eq, string_from_chars, string_of};

verus! {

broadcast use vstd::std_specs::vec::group_vec_axioms;

/// Writes a childless `<rect>` without `rx`/`ry`, and a childless `<line>`, as a `<path>`.
pub struct ConvertShapeToPath {
    pub precision: u32,
}

impl Default for ConvertShapeToPath {
    fn default() -> (r: Self)
        ensures
            r.precision == 3,
    {
        Self { precision: 3 }
    }
}

/// The value of the first attribute of this name without a prefix.
pub open spec fn attr_of(attrs: Seq<AttrV>, name: Seq<char>) -> Option<Seq<char>>
    decreases attrs.len(),
{
    if attrs.len() == 0 {
        None
    } else if attrs[0].prefix is None && attrs[0].name == name {
        Some(attrs[0].value)
    } else {
        attr_of(attrs.drop_first(), name)
    }
}

/// A coordinate: 0 when the attribute is absent, else the number its value is.
pub open spec fn coord(attrs: Seq<AttrV>, name: Seq<char>) -> Option<int> {
    match attr_of(attrs, name) {
        None => Some(0),
        Some(v) => numeric_value(v),
    }
}

pub open spec fn cmd(letter: char, args: Seq<int>) -> PCmd {
    PCmd { letter, args }
}

/// The outline of a rectangle.
pub open spec fn rect_cmds(x: int, y: int, w: int, h: int) -> Seq<PCmd> {
    seq![
        cmd('M', seq![x, y]),
        cmd('H', seq![x + w]),
        cmd('V', seq![y + h]),
        cmd('H', seq![x]),
        cmd('z', seq![]),
    ]
}

/// A line from one point to another.
pub open spec fn line_cmds(x1: int, y1: int, x2: int, y2: int) -> Seq<PCmd> {
    seq![cmd('M', seq![x1, y1]), cmd('L', seq![x2, y2])]
}

/// The geometry attributes that the path replaces.
pub open spec fn is_geometry(shape: Seq<char>, a: AttrV) -> bool {
    a.prefix is None && if shape == "rect"@ {
        a.name == "x"@ || a.name == "y"@ || a.name == "width"@ || a.name == "height"@
    } else {
        a.name == "x1"@ || a.name == "y1"@ || a.name == "x2"@ || a.name == "y2"@
    }
}

/// The attributes other than the geometry ones, in order.
pub open spec fn other_attrs(shape: Seq<char>, s: Seq<AttrV>) -> Seq<AttrV>
    decreases s.len(),
{
    if s.len() == 0 {
        s
    } else if is_geometry(shape, s.last()) {
        other_attrs(shape, s.drop_last())
    } else {
        other_attrs(shape, s.drop_last()).push(s.last())
    }
}

/// The path commands that draw the shape, where it can be converted.
pub open spec fn shape_cmds(e: ElemV) -> Option<Seq<PCmd>> {
    if e.prefix is Some || e.children.len() > 0 {
        None
    } else if e.name == "rect"@ {
        match (coord(e.attrs, "x"@), coord(e.attrs, "y"@), attr_of(e.attrs, "width"@), attr_of(
            e.attrs,
            "height"@,
        )) {
            (Some(x), Some(y), Some(wt), Some(ht)) => match (numeric_value(wt), numeric_value(ht)) {
                (Some(w), Some(h)) => if attr_of(e.attrs, "rx"@) is None && attr_of(e.attrs, "ry"@) is None {
                    Some(rect_cmds(x, y, w, h))
                } else {
                    None
                },
                _ => None,
            },
            _ => None,
        }
    } else if e.name == "line"@ {
        match (coord(e.attrs, "x1"@), coord(e.attrs, "y1"@), coord(e.attrs, "x2"@), coord(
            e.attrs,
            "y2"@,
        )) {
            (Some(x1), Some(y1), Some(x2), Some(y2)) => Some(line_cmds(x1, y1, x2, y2)),
            _ => None,
        }
    } else {
        None
    }
}

/// The `<path>` that takes the place of a shape.
pub open spec fn as_path(e: ElemV, cmds: Seq<PCmd>, p: nat) -> ElemV {
    ElemV {
        name: "path"@,
        attrs: other_attrs(e.name, e.attrs).push(
            AttrV { prefix: None, name: "d"@, value: serialize_path(cmds, p) },
        ),
        ..e
    }
}

/// Every convertible shape as a path, at every depth (what a `<foreignObject>` holds
/// excepted), and whether any was converted.
pub open spec fn sp_nodes(s: Seq<NodeV>, p: nat) -> (Seq<NodeV>, bool)
    decreases s,
{
    if s.len() == 0 {
        (Seq::empty(), false)
    } else {
        let (r, c) = sp_nodes(s.drop_last(), p);
        let n = s.last();
        match n {
            NodeV::Element(e) => {
                if is_foreign_name(e.name) {
                    (r.push(n), c)
                } else {
                    match shape_cmds(e) {
                        Some(cmds) => (r.push(NodeV::Element(as_path(e, cmds, p))), true),
                        None => {
                            let (kids, c2) = sp_nodes(e.children, p);
                            (r.push(NodeV::Element(ElemV { children: kids, ..e })), c || c2)
                        },
                    }
                }
            },
            _ => (r.push(n), c),
        }
    }
}

proof fn lemma_sp_unchanged(s: Seq<NodeV>, p: nat)
    requires
        !sp_nodes(s, p).1,
    ensures
        sp_nodes(s, p).0 == s,
    decreases s,
{
    if s.len() > 0 {
        lemma_sp_unchanged(s.drop_last(), p);
        match s.last() {
            NodeV::Element(e) => {
                if !is_foreign_name(e.name) && shape_cmds(e) is None {
                    lemma_sp_unchanged(e.children, p);
                }
            },
            _ => {},
        }
        assert(sp_nodes(s, p).0 =~= s);
    }
}

fn attr_of_exec(attrs: &Vec<Attribute>, name: &str) -> (r: Option<String>)
    ensures
        match attr_of(attrs_view(attrs@), name@) {
            Some(v) => r is Some && r.unwrap()@ == v,
            None => r is None,
        },
{
    proof {
        lemma_attrs_view(attrs@);
    }
    let ghost av = attrs_view(attrs@);
    let mut i: usize = 0;
    proof {
        assert(av.skip(0) =~= av);
    }
    while i < attrs.len()
        invariant
            av == attrs_view(attrs@),
            av.len() == attrs@.len(),
            forall|k: int| 0 <= k < attrs@.len() ==> #[trigger] av[k] == attrs@[k]@,
            0 <= i <= attrs@.len(),
            attr_of(av, name@) == attr_of(av.skip(i as int), name@),
        decreases attrs@.len() - i,
    {
        assert(av.skip(i as int)[0] == av[i as int]);
        assert(av.skip(i as int).drop_first() =~= av.skip(i + 1));
        if attrs[i].prefix.is_none() && str_eq(attrs[i].name.as_str(), name) {
            return Some(attrs[i].value.clone());
        }
        i += 1;
    }
    assert(av.skip(i as int) =~= Seq::<AttrV>::empty());
    None
}

fn number_exec(v: &String) -> (r: Option<i128>)
    ensures
        match numeric_value(v@) {
            Some(x) => r == Some(x as i128) && -BOUND <= x <= BOUND,
            None => r is None,
        },
{
    let s = crate::text::chars_of(v.as_str());
    if s.len() == 0 || is_sep_exec(s[0]) {
        return None;
    }
    proof {
        lemma_scan_progress(s@, 0);
    }
    match scan_number_exec(&s, 0) {
        NumRead::Num(x, end) => {
            if end == s.len() || (end < s.len() && s.len() - end == 2 && s[end] == 'p' && s[end + 1]
                == 'x') {
                Some(x)
            } else {
                None
            }
        },
        _ => None,
    }
}

fn coord_exec(attrs: &Vec<Attribute>, name: &str) -> (r: Option<i128>)
    ensures
        match coord(attrs_view(attrs@), name@) {
            Some(x) => r == Some(x as i128) && -BOUND <= x <= BOUND,
            None => r is None,
        },
{
    match attr_of_exec(attrs, name) {
        None => Some(0),
        Some(v) => number_exec(&v),
    }
}

fn path_cmd(letter: char, args: Vec<i128>) -> (r: PathCmd)
    ensures
        r@ == cmd(letter, args_view(args@)),
{
    PathCmd { cmd: letter, args }
}

fn one_arg(a: i128) -> (r: Vec<i128>)
    ensures
        args_view(r@) == seq![a as int],
{
    let mut v: Vec<i128> = Vec::new();
    v.push(a);
    assert(args_view(v@) =~= seq![a as int]);
    v
}

fn two_args(a: i128, b: i128) -> (r: Vec<i128>)
    ensures
        args_view(r@) == seq![a as int, b as int],
{
    let mut v: Vec<i128> = Vec::new();
    v.push(a);
    v.push(b);
    assert(args_view(v@) =~= seq![a as int, b as int]);
    v
}

fn rect_exec(x: i128, y: i128, w: i128, h: i128) -> (r: Vec<PathCmd>)
    requires
        -BOUND <= x <= BOUND,
        -BOUND <= y <= BOUND,
        -BOUND <= w <= BOUND,
        -BOUND <= h <= BOUND,
    ensures
        cmds_view(r@) == rect_cmds(x as int, y as int, w as int, h as int),
        small_cmds(rect_cmds(x as int, y as int, w as int, h as int)),
{
    let mut v: Vec<PathCmd> = Vec::new();
    v.push(path_cmd('M', two_args(x, y)));
    v.push(path_cmd('H', one_arg(x + w)));
    v.push(path_cmd('V', one_arg(y + h)));
    v.push(path_cmd('H', one_arg(x)));
    let none: Vec<i128> = Vec::new();
    assert(args_view(none@) =~= Seq::<int>::empty());
    v.push(path_cmd('z', none));
    assert(cmds_view(v@) =~= rect_cmds(x as int, y as int, w as int, h as int));
    v
}

fn line_exec(x1: i128, y1: i128, x2: i128, y2: i128) -> (r: Vec<PathCmd>)
    requires
        -BOUND <= x1 <= BOUND,
        -BOUND <= y1 <= BOUND,
        -BOUND <= x2 <= BOUND,
        -BOUND <= y2 <= BOUND,
    ensures
        cmds_view(r@) == line_cmds(x1 as int, y1 as int, x2 as int, y2 as int),
        small_cmds(line_cmds(x1 as int, y1 as int, x2 as int, y2 as int)),
{
    let mut v: Vec<PathCmd> = Vec::new();
    v.push(path_cmd('M', two_args(x1, y1)));
    v.push(path_cmd('L', two_args(x2, y2)));
    assert(cmds_view(v@) =~= line_cmds(x1 as int, y1 as int, x2 as int, y2 as int));
    v
}

#[verifier::rlimit(40)]
fn shape_cmds_exec(e: &Element) -> (r: Option<Vec<PathCmd>>)
    ensures
        match shape_cmds(crate::ast::elem_view(*e)) {
            Some(c) => r is Some && cmds_view(r.unwrap()@) == c && small_cmds(c),
            None => r is None,
        },
{
    proof {
        lemma_nodes_view_len(e.children@);
    }
    if e.prefix.is_some() || e.children.len() > 0 {
        return None;
    }
    if is_lit(&e.name, "rect") {
        let x = coord_exec(&e.attributes, "x");
        let y = coord_exec(&e.attributes, "y");
        let wt = attr_of_exec(&e.attributes, "width");
        let ht = attr_of_exec(&e.attributes, "height");
        match (x, y, wt, ht) {
            (Some(x), Some(y), Some(wt), Some(ht)) => match (number_exec(&wt), number_exec(&ht)) {
                (Some(w), Some(h)) => {
                    if attr_of_exec(&e.attributes, "rx").is_none() && attr_of_exec(&e.attributes, "ry").is_none() {
                        let v = rect_exec(x, y, w, h);
                        Some(v)
                    } else {
                        None
                    }
                },
                _ => None,
            },
            _ => None,
        }
    } else if is_lit(&e.name, "line") {
        let x1 = coord_exec(&e.attributes, "x1");
        let y1 = coord_exec(&e.attributes, "y1");
        let x2 = coord_exec(&e.attributes, "x2");
        let y2 = coord_exec(&e.attributes, "y2");
        match (x1, y1, x2, y2) {
            (Some(x1), Some(y1), Some(x2), Some(y2)) => {
                let v = line_exec(x1, y1, x2, y2);
                Some(v)
            },
            _ => None,
        }
    } else {
        None
    }
}

fn is_geometry_exec(shape: &String, a: &Attribute) -> (b: bool)
    ensures
        b == is_geometry(shape@, a@),
{
    a.prefix.is_none() && if is_lit(shape, "rect") {
        is_lit(&a.name, "x") || is_lit(&a.name, "y") || is_lit(&a.name, "width") || is_lit(
            &a.name,
            "height",
        )
    } else {
        is_lit(&a.name, "x1") || is_lit(&a.name, "y1") || is_lit(&a.name, "x2") || is_lit(
            &a.name,
            "y2",
        )
    }
}

fn other_attrs_exec(shape: &String, v: &Vec<Attribute>) -> (r: Vec<Attribute>)
    ensures
        attrs_view(r@) == other_attrs(shape@, attrs_view(v@)),
{
    let mut out: Vec<Attribute> = Vec::new();
    let mut i: usize = 0;
    while i < v.len()
        invariant
            0 <= i <= v@.len(),
            attrs_view(out@) == other_attrs(shape@, attrs_view(v@.take(i as int))),
        decreases v@.len() - i,
    {
        proof {
            assert(v@.take(i + 1) =~= v@.take(i as int).push(v@[i as int]));
            lemma_attrs_view_push(v@.take(i as int), v@[i as int]);
            let pre = attrs_view(v@.take(i as int));
            let cur = attrs_view(v@.take(i + 1));
            assert(cur.drop_last() =~= pre);
            assert(cur.last() == v@[i as int]@);
        }
        if !is_geometry_exec(shape, &v[i]) {
            let a = clone_attr(&v[i]);
            proof {
                lemma_attrs_view_push(out@, a);
            }
            out.push(a);
        }
        i += 1;
    }
    proof {
        assert(v@.take(v@.len() as int) =~= v@);
    }
    out
}

fn sp_exec(v: &Vec<Node>, p: u32) -> (r: (Vec<Node>, bool))
    ensures
        (nodes_view(r.0@), r.1) == sp_nodes(nodes_view(v@), p as nat),
    decreases v,
{
    let mut out: Vec<Node> = Vec::new();
    let mut changed = false;
    let mut i: usize = 0;
    while i < v.len()
        invariant
            0 <= i <= v@.len(),
            (nodes_view(out@), changed) == sp_nodes(nodes_view(v@.take(i as int)), p as nat),
        decreases v@.len() - i,
    {
        proof {
            lemma_take_push(v@, i as int);
        }
        match &v[i] {
            Node::Element(e) => {
                if is_foreign_exec(&e.name) {
                    let n = clone_node(&v[i]);
                    proof {
                        lemma_nodes_view_push(out@, n);
                    }
                    out.push(n);
                } else {
                    match shape_cmds_exec(e) {
                        Some(cmds) => {
                            let d = string_from_chars(&serialize_path_exec(&cmds, p));
                            let mut attributes = other_attrs_exec(&e.name, &e.attributes);
                            let da = Attribute { prefix: None, name: string_of("d"), value: d };
                            proof {
                                lemma_attrs_view_push(attributes@, da);
                            }
                            attributes.push(da);
                            let n = Node::Element(
                                Element {
                                    prefix: clone_opt(&e.prefix),
                                    name: string_of("path"),
                                    attributes,
                                    children: Vec::new(),
                                },
                            );
                            proof {
                                lemma_nodes_view_len(e.children@);
                                assert(nodes_view(Seq::<Node>::empty()) =~= nodes_view(e.children@));
                                lemma_nodes_view_push(out@, n);
                            }
                            out.push(n);
                            changed = true;
                        },
                        None => {
                            let (children, c2) = sp_exec(&e.children, p);
                            let n = Node::Element(
                                Element {
                                    prefix: clone_opt(&e.prefix),
                                    name: e.name.clone(),
                                    attributes: crate::ast::clone_attrs(&e.attributes),
                                    children,
                                },
                            );
                            proof {
                                lemma_nodes_view_push(out@, n);
                            }
                            out.push(n);
                            changed = changed || c2;
                        },
                    }
                }
            },
            other => {
                let n = clone_node(other);
                proof {
                    lemma_nodes_view_push(out@, n);
                }
                out.push(n);
            },
        }
        i += 1;
    }
    proof {
        lemma_take_all(v@);
    }
    (out, changed)
}

impl Pass for ConvertShapeToPath {
    open spec fn apply(&self, d: Seq<NodeV>) -> Seq<NodeV> {
        sp_nodes(d, self.precision as nat).0
    }

    open spec fn reports_change(&self, d: Seq<NodeV>) -> bool {
        sp_nodes(d, self.precision as nat).1
    }

    open spec fn pass_name(&self) -> Seq<char> {
        "convertShapeToPath"@
    }

    fn name(&self) -> (r: &'static str) {
        "convertShapeToPath"
    }

    fn run(&self, doc: &mut Document) -> (r: PassResult) {
        let (children, changed) = sp_exec(&doc.children, self.precision);
        doc.children = children;
        result_from(changed)
    }

    proof fn lemma_unchanged(&self, d: Seq<NodeV>) {
        lemma_sp_unchanged(d, self.precision as nat);
    }
}

} // verus!

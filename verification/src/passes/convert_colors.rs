//! Shorter forms of colors: hex digits in lower case, `#aabbcc` as `#abc`, and a name
//! where the name is shorter than the hex form.
use vstd::prelude::*;

use super::{result_from, Pass, PassResult};
use crate::ast::{
    attrs_view, clone_node, clone_opt, is_foreign_exec, is_foreign_name, lemma_attrs_view_push,
    lemma_nodes_view_push, lemma_take_all, lemma_take_push, nodes_view, AttrV, Attribute,
    Document, ElemV, Element, Node, NodeV,
};
use crate::text::{
    chars_eq, chars_of, extend_chars, is_lit, is_none_str, str_eq, string_from_chars, string_of,
};

verus! {

broadcast use vstd::std_specs::vec::group_vec_axioms;

/// Writes color values in their shortest form.
pub struct ConvertColors;

/// The attributes whose value is a color.
pub open spec fn is_color_attr(name: Seq<char>) -> bool {
    name == "fill"@ || name == "stroke"@ || name == "stop-color"@ || name == "flood-color"@ || name
        == "lighting-color"@ || name == "color"@
}

pub open spec fn is_hex_digit(c: char) -> bool {
    ('0' <= c && c <= '9') || ('a' <= c && c <= 'f') || ('A' <= c && c <= 'F')
}

/// A hex digit in lower case.
pub open spec fn lower_hex(c: char) -> char {
    if c == 'A' {
        'a'
    } else if c == 'B' {
        'b'
    } else if c == 'C' {
        'c'
    } else if c == 'D' {
        'd'
    } else if c == 'E' {
        'e'
    } else if c == 'F' {
        'f'
    } else {
        c
    }
}

/// Whether `v` is `#` and `n` hex digits.
pub open spec fn is_hex_color(v: Seq<char>, n: int) -> bool {
    v.len() == n + 1 && v[0] == '#' && forall|i: int| 1 <= i <= n ==> is_hex_digit(#[trigger] v[i])
}

/// The text with its hex letters in lower case.
pub open spec fn lowered(v: Seq<char>) -> Seq<char> {
    v.map_values(|c: char| lower_hex(c))
}

/// A hex color in lower case, with six digits made three where each pair repeats a digit;
/// any other value as it is.
pub open spec fn short_hex(v: Seq<char>) -> Seq<char> {
    if is_hex_color(v, 6) {
        let w = lowered(v);
        if w[1] == w[2] && w[3] == w[4] && w[5] == w[6] {
            seq!['#', w[1], w[3], w[5]]
        } else {
            w
        }
    } else if is_hex_color(v, 3) {
        lowered(v)
    } else {
        v
    }
}

/// The color names that are shorter than the hex form of their color.
pub open spec fn color_name(h: Seq<char>) -> Option<Seq<char>> {
    if h == "#f0ffff"@ {
        Some("azure"@)
    } else if h == "#f5f5dc"@ {
        Some("beige"@)
    } else if h == "#ffe4c4"@ {
        Some("bisque"@)
    } else if h == "#a52a2a"@ {
        Some("brown"@)
    } else if h == "#ff7f50"@ {
        Some("coral"@)
    } else if h == "#ffd700"@ {
        Some("gold"@)
    } else if h == "#808080"@ {
        Some("gray"@)
    } else if h == "#008000"@ {
        Some("green"@)
    } else if h == "#4b0082"@ {
        Some("indigo"@)
    } else if h == "#fffff0"@ {
        Some("ivory"@)
    } else if h == "#f0e68c"@ {
        Some("khaki"@)
    } else if h == "#faf0e6"@ {
        Some("linen"@)
    } else if h == "#800000"@ {
        Some("maroon"@)
    } else if h == "#000080"@ {
        Some("navy"@)
    } else if h == "#808000"@ {
        Some("olive"@)
    } else if h == "#ffa500"@ {
        Some("orange"@)
    } else if h == "#da70d6"@ {
        Some("orchid"@)
    } else if h == "#cd853f"@ {
        Some("peru"@)
    } else if h == "#ffc0cb"@ {
        Some("pink"@)
    } else if h == "#dda0dd"@ {
        Some("plum"@)
    } else if h == "#800080"@ {
        Some("purple"@)
    } else if h == "#f00"@ {
        Some("red"@)
    } else if h == "#fa8072"@ {
        Some("salmon"@)
    } else if h == "#a0522d"@ {
        Some("sienna"@)
    } else if h == "#c0c0c0"@ {
        Some("silver"@)
    } else if h == "#fffafa"@ {
        Some("snow"@)
    } else if h == "#d2b48c"@ {
        Some("tan"@)
    } else if h == "#008080"@ {
        Some("teal"@)
    } else if h == "#ff6347"@ {
        Some("tomato"@)
    } else if h == "#ee82ee"@ {
        Some("violet"@)
    } else if h == "#f5deb3"@ {
        Some("wheat"@)
    } else {
        None
    }
}

/// The shortest form of a color value.
pub open spec fn converted_color(v: Seq<char>) -> Seq<char> {
    let h = short_hex(v);
    match color_name(h) {
        Some(n) => n,
        None => h,
    }
}

/// The value an attribute gets.
pub open spec fn color_value(a: AttrV) -> Seq<char> {
    if a.prefix is None && is_color_attr(a.name) {
        converted_color(a.value)
    } else {
        a.value
    }
}

/// The attributes with their colors converted, and whether any value changed.
pub open spec fn cc_attrs(s: Seq<AttrV>) -> (Seq<AttrV>, bool)
    decreases s.len(),
{
    if s.len() == 0 {
        (Seq::empty(), false)
    } else {
        let (r, c) = cc_attrs(s.drop_last());
        let a = s.last();
        let v = color_value(a);
        (r.push(AttrV { value: v, ..a }), c || v != a.value)
    }
}

/// Every element with its colors converted, at every depth (what a `<foreignObject>`
/// holds excepted), and whether any value changed.
pub open spec fn cc_nodes(s: Seq<NodeV>) -> (Seq<NodeV>, bool)
    decreases s,
{
    if s.len() == 0 {
        (Seq::empty(), false)
    } else {
        let (r, c) = cc_nodes(s.drop_last());
        let n = s.last();
        match n {
            NodeV::Element(e) => {
                if is_foreign_name(e.name) {
                    (r.push(n), c)
                } else {
                    let (attrs, c1) = cc_attrs(e.attrs);
                    let (kids, c2) = cc_nodes(e.children);
                    (r.push(NodeV::Element(ElemV { attrs, children: kids, ..e })), c || c1 || c2)
                }
            },
            _ => (r.push(n), c),
        }
    }
}

proof fn lemma_cc_attrs_unchanged(s: Seq<AttrV>)
    requires
        !cc_attrs(s).1,
    ensures
        cc_attrs(s).0 == s,
    decreases s.len(),
{
    if s.len() > 0 {
        lemma_cc_attrs_unchanged(s.drop_last());
        assert(cc_attrs(s).0 =~= s);
    }
}

proof fn lemma_cc_unchanged(s: Seq<NodeV>)
    requires
        !cc_nodes(s).1,
    ensures
        cc_nodes(s).0 == s,
    decreases s,
{
    if s.len() > 0 {
        lemma_cc_unchanged(s.drop_last());
        match s.last() {
            NodeV::Element(e) => {
                if !is_foreign_name(e.name) {
                    lemma_cc_attrs_unchanged(e.attrs);
                    lemma_cc_unchanged(e.children);
                }
            },
            _ => {},
        }
        assert(cc_nodes(s).0 =~= s);
    }
}

fn is_color_attr_exec(name: &String) -> (b: bool)
    ensures
        b == is_color_attr(name@),
{
    is_lit(name, "fill") || is_lit(name, "stroke") || is_lit(name, "stop-color") || is_lit(
        name,
        "flood-color",
    ) || is_lit(name, "lighting-color") || is_lit(name, "color")
}

fn lower_hex_exec(c: char) -> (r: char)
    ensures
        r == lower_hex(c),
{
    match c {
        'A' => 'a',
        'B' => 'b',
        'C' => 'c',
        'D' => 'd',
        'E' => 'e',
        'F' => 'f',
        _ => c,
    }
}

fn is_hex_color_exec(v: &Vec<char>, n: usize) -> (b: bool)
    requires
        n <= 6,
    ensures
        b == is_hex_color(v@, n as int),
{
    if v.len() != n + 1 || v[0] != '#' {
        return false;
    }
    let mut i: usize = 1;
    while i <= n
        invariant
            n <= 6,
            v@.len() == n + 1,
            1 <= i <= n + 1,
            forall|k: int| 1 <= k < i ==> is_hex_digit(#[trigger] v@[k]),
        decreases n + 1 - i,
    {
        let c = v[i];
        if !(('0' <= c && c <= '9') || ('a' <= c && c <= 'f') || ('A' <= c && c <= 'F')) {
            return false;
        }
        i += 1;
    }
    true
}

fn lowered_exec(v: &Vec<char>) -> (r: Vec<char>)
    ensures
        r@ == lowered(v@),
{
    let mut out: Vec<char> = Vec::new();
    let mut i: usize = 0;
    while i < v.len()
        invariant
            0 <= i <= v@.len(),
            out@ == lowered(v@.take(i as int)),
        decreases v@.len() - i,
    {
        proof {
            assert(lowered(v@.take(i + 1)) =~= lowered(v@.take(i as int)).push(lower_hex(v@[i as int])));
        }
        out.push(lower_hex_exec(v[i]));
        i += 1;
    }
    proof {
        assert(v@.take(v@.len() as int) =~= v@);
    }
    out
}

fn short_hex_exec(v: &Vec<char>) -> (r: Vec<char>)
    ensures
        r@ == short_hex(v@),
{
    if is_hex_color_exec(v, 6) {
        let w = lowered_exec(v);
        if w[1] == w[2] && w[3] == w[4] && w[5] == w[6] {
            let mut out: Vec<char> = Vec::new();
            out.push('#');
            out.push(w[1]);
            out.push(w[3]);
            out.push(w[5]);
            assert(out@ =~= seq!['#', w@[1], w@[3], w@[5]]);
            out
        } else {
            w
        }
    } else if is_hex_color_exec(v, 3) {
        lowered_exec(v)
    } else {
        let mut out: Vec<char> = Vec::new();
        extend_chars(&mut out, v);
        assert(out@ =~= v@);
        out
    }
}

fn color_name_exec(h: &str) -> (r: Option<&'static str>)
    ensures
        match color_name(h@) {
            Some(n) => r is Some && r.unwrap()@ == n,
            None => r is None,
        },
{
    if str_eq(h, "#f0ffff") {
        Some("azure")
    } else if str_eq(h, "#f5f5dc") {
        Some("beige")
    } else if str_eq(h, "#ffe4c4") {
        Some("bisque")
    } else if str_eq(h, "#a52a2a") {
        Some("brown")
    } else if str_eq(h, "#ff7f50") {
        Some("coral")
    } else if str_eq(h, "#ffd700") {
        Some("gold")
    } else if str_eq(h, "#808080") {
        Some("gray")
    } else if str_eq(h, "#008000") {
        Some("green")
    } else if str_eq(h, "#4b0082") {
        Some("indigo")
    } else if str_eq(h, "#fffff0") {
        Some("ivory")
    } else if str_eq(h, "#f0e68c") {
        Some("khaki")
    } else if str_eq(h, "#faf0e6") {
        Some("linen")
    } else if str_eq(h, "#800000") {
        Some("maroon")
    } else if str_eq(h, "#000080") {
        Some("navy")
    } else if str_eq(h, "#808000") {
        Some("olive")
    } else if str_eq(h, "#ffa500") {
        Some("orange")
    } else if str_eq(h, "#da70d6") {
        Some("orchid")
    } else if str_eq(h, "#cd853f") {
        Some("peru")
    } else if str_eq(h, "#ffc0cb") {
        Some("pink")
    } else if str_eq(h, "#dda0dd") {
        Some("plum")
    } else if str_eq(h, "#800080") {
        Some("purple")
    } else if str_eq(h, "#f00") {
        Some("red")
    } else if str_eq(h, "#fa8072") {
        Some("salmon")
    } else if str_eq(h, "#a0522d") {
        Some("sienna")
    } else if str_eq(h, "#c0c0c0") {
        Some("silver")
    } else if str_eq(h, "#fffafa") {
        Some("snow")
    } else if str_eq(h, "#d2b48c") {
        Some("tan")
    } else if str_eq(h, "#008080") {
        Some("teal")
    } else if str_eq(h, "#ff6347") {
        Some("tomato")
    } else if str_eq(h, "#ee82ee") {
        Some("violet")
    } else if str_eq(h, "#f5deb3") {
        Some("wheat")
    } else {
        None
    }
}

fn color_value_exec(a: &Attribute) -> (r: String)
    ensures
        r@ == color_value(a@),
{
    if is_none_str(&a.prefix) && is_color_attr_exec(&a.name) {
        let h = string_from_chars(&short_hex_exec(&chars_of(a.value.as_str())));
        match color_name_exec(h.as_str()) {
            Some(n) => string_of(n),
            None => h,
        }
    } else {
        a.value.clone()
    }
}

fn cc_attrs_exec(v: &Vec<Attribute>) -> (r: (Vec<Attribute>, bool))
    ensures
        (attrs_view(r.0@), r.1) == cc_attrs(attrs_view(v@)),
{
    let mut out: Vec<Attribute> = Vec::new();
    let mut changed = false;
    let mut i: usize = 0;
    while i < v.len()
        invariant
            0 <= i <= v@.len(),
            (attrs_view(out@), changed) == cc_attrs(attrs_view(v@.take(i as int))),
        decreases v@.len() - i,
    {
        proof {
            assert(v@.take(i + 1) =~= v@.take(i as int).push(v@[i as int]));
            lemma_attrs_view_push(v@.take(i as int), v@[i as int]);
            let pre = attrs_view(v@.take(i as int));
            let cur = attrs_view(v@.take(i + 1));
            assert(cur.drop_last() =~= pre);
            assert(cur.last() == v@[i as int]@);
        }
        let a = &v[i];
        let value = color_value_exec(a);
        let differs = !chars_eq(&chars_of(value.as_str()), &chars_of(a.value.as_str()));
        let n = Attribute { prefix: clone_opt(&a.prefix), name: a.name.clone(), value };
        proof {
            lemma_attrs_view_push(out@, n);
        }
        out.push(n);
        changed = changed || differs;
        i += 1;
    }
    proof {
        assert(v@.take(v@.len() as int) =~= v@);
    }
    (out, changed)
}

fn cc_exec(v: &Vec<Node>) -> (r: (Vec<Node>, bool))
    ensures
        (nodes_view(r.0@), r.1) == cc_nodes(nodes_view(v@)),
    decreases v,
{
    let mut out: Vec<Node> = Vec::new();
    let mut changed = false;
    let mut i: usize = 0;
    while i < v.len()
        invariant
            0 <= i <= v@.len(),
            (nodes_view(out@), changed) == cc_nodes(nodes_view(v@.take(i as int))),
        decreases v@.len() - i,
    {
        proof {
            lemma_take_push(v@, i as int);
        }
        match &v[i] {
            Node::Element(e) => {
                if is_foreign_exec(&e.name) {
                    let n = clone_node(&v[i]);
                    proof {
                        lemma_nodes_view_push(out@, n);
                    }
                    out.push(n);
                } else {
                    let (attributes, c1) = cc_attrs_exec(&e.attributes);
                    let (children, c2) = cc_exec(&e.children);
                    let n = Node::Element(
                        Element { prefix: clone_opt(&e.prefix), name: e.name.clone(), attributes, children },
                    );
                    proof {
                        lemma_nodes_view_push(out@, n);
                    }
                    out.push(n);
                    changed = changed || c1 || c2;
                }
            },
            other => {
                let n = clone_node(other);
                proof {
                    lemma_nodes_view_push(out@, n);
                }
                out.push(n);
            },
        }
        i += 1;
    }
    proof {
        lemma_take_all(v@);
    }
    (out, changed)
}

impl Pass for ConvertColors {
    open spec fn apply(&self, d: Seq<NodeV>) -> Seq<NodeV> {
        cc_nodes(d).0
    }

    open spec fn reports_change(&self, d: Seq<NodeV>) -> bool {
        cc_nodes(d).1
    }

    open spec fn pass_name(&self) -> Seq<char> {
        "convertColors"@
    }

    fn name(&self) -> (r: &'static str) {
        "convertColors"
    }

    fn run(&self, doc: &mut Document) -> (r: PassResult) {
        let (children, changed) = cc_exec(&doc.children);
        doc.children = children;
        result_from(changed)
    }

    proof fn lemma_unchanged(&self, d: Seq<NodeV>) {
        lemma_cc_unchanged(d);
    }
}

} // verus!

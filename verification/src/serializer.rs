//! Writes a `Document` back as minified markup.
use vstd::prelude::*;

use crate::ast::{
    attrs_view, lemma_attrs_view_push, elem_view, lemma_nodes_view_len, node_view, nodes_view, opt_view, AttrV,
    Attribute, Document, ElemV, Element, Node, NodeV,
};
use crate::text::{extend_str, string_from_chars};

verus! {

broadcast use vstd::std_specs::vec::group_vec_axioms;

/// A name with its optional prefix, as written: `prefix:name` or `name`.
pub open spec fn qname(prefix: Option<Seq<char>>, name: Seq<char>) -> Seq<char> {
    match prefix {
        Some(p) => p + seq![':'] + name,
        None => name,
    }
}

/// ` name="value"`
pub open spec fn ser_attr(a: AttrV) -> Seq<char> {
    seq![' '] + qname(a.prefix, a.name) + seq!['=', '"'] + a.value + seq!['"']
}

pub open spec fn ser_attrs(s: Seq<AttrV>) -> Seq<char>
    decreases s.len(),
{
    if s.len() == 0 {
        Seq::empty()
    } else {
        ser_attrs(s.drop_last()) + ser_attr(s.last())
    }
}

/// An element is written `<q attrs/>` when it has no children, and
/// `<q attrs>children</q>` otherwise.
pub open spec fn ser_elem(e: ElemV) -> Seq<char>
    decreases e,
{
    let q = qname(e.prefix, e.name);
    if e.children.len() == 0 {
        seq!['<'] + q + ser_attrs(e.attrs) + seq!['/', '>']
    } else {
        seq!['<'] + q + ser_attrs(e.attrs) + seq!['>'] + ser_nodes(e.children) + seq!['<', '/']
            + q + seq!['>']
    }
}

pub open spec fn ser_node(n: NodeV) -> Seq<char>
    decreases n,
{
    match n {
        NodeV::Element(e) => ser_elem(e),
        NodeV::Text(t) => t,
        NodeV::Comment(t) => seq!['<', '!', '-', '-'] + t + seq!['-', '-', '>'],
        NodeV::CData(t) => seq!['<', '!', '[', 'C', 'D', 'A', 'T', 'A', '['] + t + seq![
            ']',
            ']',
            '>',
        ],
        NodeV::ProcInst(t) => seq!['<', '?'] + t + seq!['?', '>'],
        NodeV::Doctype(t) => seq!['<', '!'] + t + seq!['>'],
    }
}

pub open spec fn ser_nodes(s: Seq<NodeV>) -> Seq<char>
    decreases s,
{
    if s.len() == 0 {
        Seq::empty()
    } else {
        ser_nodes(s.drop_last()) + ser_node(s.last())
    }
}

fn push3(out: &mut Vec<char>, a: char, b: char, c: char)
    ensures
        final(out)@ == old(out)@ + seq![a, b, c],
{
    out.push(a);
    out.push(b);
    out.push(c);
    assert(out@ =~= old(out)@ + seq![a, b, c]);
}

fn write_qname(out: &mut Vec<char>, prefix: &Option<String>, name: &String)
    ensures
        final(out)@ == old(out)@ + qname(opt_view(*prefix), name@),
{
    match prefix {
        Some(p) => {
            extend_str(out, p.as_str());
            out.push(':');
            extend_str(out, name.as_str());
            assert(out@ =~= old(out)@ + (p@ + seq![':'] + name@));
        },
        None => {
            extend_str(out, name.as_str());
        },
    }
}

fn write_attr(out: &mut Vec<char>, a: &Attribute)
    ensures
        final(out)@ == old(out)@ + ser_attr(a@),
{
    let ghost o = out@;
    out.push(' ');
    write_qname(out, &a.prefix, &a.name);
    out.push('=');
    out.push('"');
    extend_str(out, a.value.as_str());
    out.push('"');
    assert(out@ =~= o + ser_attr(a@));
}

fn write_attrs(out: &mut Vec<char>, attrs: &Vec<Attribute>)
    ensures
        final(out)@ == old(out)@ + ser_attrs(attrs_view(attrs@)),
{
    let mut i: usize = 0;
    while i < attrs.len()
        invariant
            0 <= i <= attrs@.len(),
            out@ == old(out)@ + ser_attrs(attrs_view(attrs@.take(i as int))),
        decreases attrs@.len() - i,
    {
        let ghost before = out@;
        write_attr(out, &attrs[i]);
        proof {
            let t = attrs_view(attrs@.take(i + 1));
            lemma_attrs_view_push(attrs@.take(i as int), attrs@[i as int]);
            assert(attrs@.take(i as int).push(attrs@[i as int]) =~= attrs@.take(i + 1));
            assert(t.drop_last() =~= attrs_view(attrs@.take(i as int)));
            assert(out@ =~= old(out)@ + ser_attrs(t));
        }
        i += 1;
    }
    assert(attrs@.take(attrs@.len() as int) =~= attrs@);
}

fn write_nodes(out: &mut Vec<char>, nodes: &Vec<Node>)
    ensures
        final(out)@ == old(out)@ + ser_nodes(nodes_view(nodes@)),
    decreases nodes, 1int,
{
    let mut i: usize = 0;
    while i < nodes.len()
        invariant
            0 <= i <= nodes@.len(),
            out@ == old(out)@ + ser_nodes(nodes_view(nodes@.take(i as int))),
        decreases nodes@.len() - i,
    {
        write_node(out, &nodes[i]);
        proof {
            let t = nodes@.take(i + 1);
            assert(t.drop_last() =~= nodes@.take(i as int));
            lemma_nodes_view_len(t);
            assert(nodes_view(t).drop_last() == nodes_view(t.drop_last()));
            assert(nodes_view(t).last() == node_view(nodes@[i as int]));
            assert(out@ =~= old(out)@ + ser_nodes(nodes_view(t)));
        }
        i += 1;
    }
    assert(nodes@.take(nodes@.len() as int) =~= nodes@);
}

fn write_elem(out: &mut Vec<char>, e: &Element)
    ensures
        final(out)@ == old(out)@ + ser_elem(elem_view(*e)),
    decreases e, 2int,
{
    let ghost o = out@;
    let ghost q = qname(opt_view(e.prefix), e.name@);
    out.push('<');
    write_qname(out, &e.prefix, &e.name);
    write_attrs(out, &e.attributes);
    proof {
        lemma_nodes_view_len(e.children@);
    }
    if e.children.len() == 0 {
        out.push('/');
        out.push('>');
        assert(out@ =~= o + ser_elem(elem_view(*e)));
    } else {
        out.push('>');
        let ghost mid = out@;
        write_nodes(out, &e.children);
        out.push('<');
        out.push('/');
        write_qname(out, &e.prefix, &e.name);
        out.push('>');
        assert(out@ =~= o + ser_elem(elem_view(*e)));
    }
}

fn write_text(out: &mut Vec<char>, t: &String)
    ensures
        final(out)@ == old(out)@ + t@,
{
    extend_str(out, t.as_str());
}

fn write_node(out: &mut Vec<char>, n: &Node)
    ensures
        final(out)@ == old(out)@ + ser_node(node_view(*n)),
    decreases n, 3int,
{
    let ghost o = out@;
    match n {
        Node::Element(e) => {
            write_elem(out, e);
        },
        Node::Text(t) => {
            write_text(out, t);
        },
        Node::Comment(t) => {
            out.push('<');
            out.push('!');
            out.push('-');
            out.push('-');
            write_text(out, t);
            push3(out, '-', '-', '>');
            assert(out@ =~= o + ser_node(node_view(*n)));
        },
        Node::CData(t) => {
            out.push('<');
            out.push('!');
            out.push('[');
            out.push('C');
            out.push('D');
            out.push('A');
            out.push('T');
            out.push('A');
            out.push('[');
            write_text(out, t);
            push3(out, ']', ']', '>');
            assert(out@ =~= o + ser_node(node_view(*n)));
        },
        Node::ProcessingInstruction(t) => {
            out.push('<');
            out.push('?');
            write_text(out, t);
            out.push('?');
            out.push('>');
            assert(out@ =~= o + ser_node(node_view(*n)));
        },
        Node::Doctype(t) => {
            out.push('<');
            out.push('!');
            write_text(out, t);
            out.push('>');
            assert(out@ =~= o + ser_node(node_view(*n)));
        },
    }
}

/// Writes the document as minified markup.
pub fn serialize(doc: &Document) -> (s: String)
    ensures
        s@ == ser_nodes(doc@),
{
    let mut out: Vec<char> = Vec::new();
    write_nodes(&mut out, &doc.children);
    assert(out@ =~= ser_nodes(doc@));
    string_from_chars(&out)
}

} // verus!

//! What reading gives back of writing: a well-formed document, written out and read
//! again, is the same document.
use vstd::prelude::*;

use crate::ast::{AttrV, ElemV, NodeV};
use crate::parser::{find_char, find_from, is_name_char, lit_cdata_close, lit_cdata_open, lit_comment_close, lit_comment_open, lit_decl_open, lit_end_tag, lit_gt, lit_pi_close, lit_pi_open, name_end, sp_attrs, sp_content, sp_item, sp_parse, split_qname, starts_at, text_end, ws_end};
use crate::serializer::{qname, ser_attr, ser_attrs, ser_elem, ser_node, ser_nodes};
use crate::text::is_xml_ws;

verus! {

/// Whether `w` occurs in `s` at `p`, stated character by character.
pub open spec fn at(s: Seq<char>, p: int, w: Seq<char>) -> bool {
    &&& 0 <= p
    &&& p + w.len() <= s.len()
    &&& forall|i: int| 0 <= i < w.len() ==> s[p + i] == #[trigger] w[i]
}

/// Whether `lit` occurs anywhere in `t`.
pub open spec fn contains_lit(t: Seq<char>, lit: Seq<char>) -> bool {
    exists|k: int| 0 <= k && k + lit.len() <= t.len() && #[trigger] t.subrange(k, k + lit.len()) == lit
}

proof fn lemma_at_split(s: Seq<char>, p: int, a: Seq<char>, b: Seq<char>)
    requires
        at(s, p, a + b),
    ensures
        at(s, p, a),
        at(s, p + a.len(), b),
{
    assert forall|i: int| 0 <= i < a.len() implies s[p + i] == #[trigger] a[i] by {
        assert((a + b)[i] == a[i]);
    }
    assert forall|i: int| 0 <= i < b.len() implies s[p + a.len() + i] == #[trigger] b[i] by {
        assert((a + b)[a.len() + i] == b[i]);
    }
}

proof fn lemma_at_starts(s: Seq<char>, p: int, w: Seq<char>)
    requires
        at(s, p, w),
    ensures
        starts_at(s, p, w),
{
    assert(s.subrange(p, p + w.len()) =~= w);
}

proof fn lemma_name_end_at(s: Seq<char>, p: int, k: int)
    requires
        0 <= p,
        0 <= k,
        p + k <= s.len(),
        forall|i: int| p <= i < p + k ==> is_name_char(#[trigger] s[i]),
        p + k == s.len() || !is_name_char(s[p + k]),
    ensures
        name_end(s, p) == p + k,
    decreases k,
{
    if k > 0 {
        lemma_name_end_at(s, p + 1, k - 1);
    }
}

proof fn lemma_ws_end_at(s: Seq<char>, p: int, k: int)
    requires
        0 <= p,
        0 <= k,
        p + k <= s.len(),
        forall|i: int| p <= i < p + k ==> is_xml_ws(#[trigger] s[i]),
        p + k == s.len() || !is_xml_ws(s[p + k]),
    ensures
        ws_end(s, p) == p + k,
    decreases k,
{
    if k > 0 {
        lemma_ws_end_at(s, p + 1, k - 1);
    }
}

proof fn lemma_text_end_at(s: Seq<char>, p: int, k: int)
    requires
        0 <= p,
        0 <= k,
        p + k <= s.len(),
        forall|i: int| p <= i < p + k ==> #[trigger] s[i] != '<',
        p + k == s.len() || s[p + k] == '<',
    ensures
        text_end(s, p) == p + k,
    decreases k,
{
    if k > 0 {
        lemma_text_end_at(s, p + 1, k - 1);
    }
}

proof fn lemma_find_char_at(s: Seq<char>, p: int, k: int, c: char)
    requires
        0 <= p,
        0 <= k,
        p + k < s.len(),
        forall|i: int| p <= i < p + k ==> #[trigger] s[i] != c,
        s[p + k] == c,
    ensures
        find_char(s, p, c) == Some(p + k),
    decreases k,
{
    if k > 0 {
        lemma_find_char_at(s, p + 1, k - 1, c);
    }
}

/// Finding a closing literal that ends in `>` (and holds no other `>`) right after a text
/// that does not contain it.
proof fn lemma_find_close(s: Seq<char>, p: int, t: Seq<char>, lit: Seq<char>, k: int)
    requires
        0 <= p <= k <= p + t.len(),
        lit.len() >= 1,
        lit.last() == '>',
        forall|j: int| 0 <= j < lit.len() - 1 ==> #[trigger] lit[j] != '>',
        at(s, p, t + lit),
        !contains_lit(t, lit),
    ensures
        find_from(s, k, lit) == Some(p + t.len()),
    decreases p + t.len() - k,
{
    lemma_at_split(s, p, t, lit);
    if k == p + t.len() {
        lemma_at_starts(s, k, lit);
    } else {
        assert(!starts_at(s, k, lit)) by {
            if starts_at(s, k, lit) {
                let w = s.subrange(k, k + lit.len());
                if k + lit.len() <= p + t.len() {
                    assert(t.subrange(k - p, k - p + lit.len()) =~= w);
                } else {
                    let j = k + lit.len() - 1 - (p + t.len());
                    assert(0 <= j < lit.len() - 1);
                    assert(s[p + t.len() + j] == lit[j]);
                    assert(w[lit.len() - 1] == s[k + lit.len() - 1]);
                    assert(lit[j] != '>');
                    assert(w == lit);
                }
            }
        }
        lemma_find_close(s, p, t, lit, k + 1);
    }
}

pub open spec fn all_name_chars(q: Seq<char>) -> bool {
    forall|i: int| 0 <= i < q.len() ==> is_name_char(#[trigger] q[i])
}

/// A name that reads back as itself: not empty, made of name characters, and split at
/// its first colon into the same prefix and local name.
pub open spec fn name_ok(prefix: Option<Seq<char>>, name: Seq<char>) -> bool {
    let q = qname(prefix, name);
    q.len() > 0 && all_name_chars(q) && split_qname(q) == (prefix, name)
}

/// An attribute that reads back as itself: its name does, and its value holds no `"`.
pub open spec fn attr_ok(a: AttrV) -> bool {
    name_ok(a.prefix, a.name) && !a.value.contains('"')
}

pub open spec fn attrs_ok(s: Seq<AttrV>) -> bool {
    forall|i: int| 0 <= i < s.len() ==> attr_ok(#[trigger] s[i])
}

pub open spec fn lit_dashes() -> Seq<char> {
    seq!['-', '-']
}

pub open spec fn lit_cdata_mark() -> Seq<char> {
    seq!['[', 'C', 'D', 'A', 'T', 'A', '[']
}

/// A node that reads back as itself once written: an element whose name does not start
/// with `!` or `?`, whose attributes and children do; a text that is not empty and holds
/// no `<`; a comment, CDATA section or processing instruction that does not hold its
/// closing mark; a declaration that holds no `>` and does not start as a comment or a
/// CDATA section would.
pub open spec fn wf_node(n: NodeV) -> bool
    decreases n, 1int,
{
    match n {
        NodeV::Element(e) => {
            let q = qname(e.prefix, e.name);
            &&& name_ok(e.prefix, e.name)
            &&& q[0] != '!' && q[0] != '?'
            &&& attrs_ok(e.attrs)
            &&& wf_nodes(e.children)
        },
        NodeV::Text(t) => t.len() > 0 && !t.contains('<'),
        NodeV::Comment(t) => !contains_lit(t, lit_comment_close()),
        NodeV::CData(t) => !contains_lit(t, lit_cdata_close()),
        NodeV::ProcInst(t) => !contains_lit(t, lit_pi_close()),
        NodeV::Doctype(t) => !t.contains('>') && !starts_at(t, 0, lit_dashes()) && !starts_at(
            t,
            0,
            lit_cdata_mark(),
        ),
    }
}

/// Nodes that read back as themselves: each does, and no two texts are next to each other
/// (written out, they would read back as one).
pub open spec fn wf_nodes(s: Seq<NodeV>) -> bool
    decreases s, 0int,
{
    if s.len() == 0 {
        true
    } else {
        &&& wf_node(s[0])
        &&& (s.len() > 1 ==> !(s[0] is Text && s[1] is Text))
        &&& wf_nodes(s.drop_first())
    }
}

proof fn lemma_ser_nodes_front(s: Seq<NodeV>)
    requires
        s.len() > 0,
    ensures
        ser_nodes(s) == ser_node(s[0]) + ser_nodes(s.drop_first()),
    decreases s.len(),
{
    if s.len() == 1 {
        assert(s.drop_last() =~= Seq::<NodeV>::empty());
        assert(s.drop_first() =~= Seq::<NodeV>::empty());
        assert(ser_nodes(s) =~= ser_node(s[0]) + ser_nodes(s.drop_first()));
    } else {
        lemma_ser_nodes_front(s.drop_last());
        assert(s.drop_last().drop_first() =~= s.drop_first().drop_last());
        assert(s.drop_first().last() == s.last());
        assert(ser_nodes(s) =~= ser_node(s[0]) + ser_nodes(s.drop_first()));
    }
}

proof fn lemma_ser_attrs_front(s: Seq<AttrV>)
    requires
        s.len() > 0,
    ensures
        ser_attrs(s) == ser_attr(s[0]) + ser_attrs(s.drop_first()),
    decreases s.len(),
{
    if s.len() == 1 {
        assert(s.drop_last() =~= Seq::<AttrV>::empty());
        assert(s.drop_first() =~= Seq::<AttrV>::empty());
        assert(ser_attrs(s) =~= ser_attr(s[0]) + ser_attrs(s.drop_first()));
    } else {
        lemma_ser_attrs_front(s.drop_last());
        assert(s.drop_last().drop_first() =~= s.drop_first().drop_last());
        assert(s.drop_first().last() == s.last());
        assert(ser_attrs(s) =~= ser_attr(s[0]) + ser_attrs(s.drop_first()));
    }
}

/// The attribute list as written, followed by `close` (`/>` or `>`), reads back as itself.
proof fn lemma_attrs_rt(s: Seq<char>, p: int, attrs: Seq<AttrV>, close: Seq<char>)
    requires
        attrs_ok(attrs),
        close == seq!['/', '>'] || close == seq!['>'],
        at(s, p, ser_attrs(attrs) + close),
    ensures
        sp_attrs(s, p) == Some((attrs, p + ser_attrs(attrs).len() + close.len(), close.len() == 2)),
    decreases attrs.len(),
{
    lemma_at_split(s, p, ser_attrs(attrs), close);
    if attrs.len() == 0 {
        assert(close[0] == s[p + ser_attrs(attrs).len() + 0]);
        lemma_ws_end_at(s, p, 0);
        if close.len() == 2 {
            assert(close[1] == s[p + 1]);
        }
    } else {
        lemma_ser_attrs_front(attrs);
        let a = attrs[0];
        let rest = attrs.drop_first();
        let q = qname(a.prefix, a.name);
        assert(attr_ok(a));
        let sa = ser_attr(a);
        assert(ser_attrs(attrs) + close =~= sa + (ser_attrs(rest) + close));
        lemma_at_split(s, p, sa, ser_attrs(rest) + close);
        assert(sa =~= seq![' '] + q + seq!['=', '"'] + a.value + seq!['"']);
        let e2 = p + 1 + q.len() + 1;
        let ve = e2 + 1 + a.value.len();
        assert(s[p] == sa[0]);
        assert forall|i: int| p + 1 <= i < p + 1 + q.len() implies is_name_char(#[trigger] s[i]) by {
            assert(s[i] == sa[i - p]);
            assert(sa[i - p] == q[i - p - 1]);
        }
        assert(s[p + 1 + q.len()] == sa[1 + q.len() as int]);
        assert(s[e2] == sa[e2 - p]);
        assert(q[0] == sa[1]);
        lemma_ws_end_at(s, p, 1);
        lemma_name_end_at(s, p + 1, q.len() as int);
        lemma_ws_end_at(s, p + 1 + q.len(), 0);
        lemma_ws_end_at(s, e2, 0);
        assert forall|i: int| e2 + 1 <= i < ve implies #[trigger] s[i] != '"' by {
            assert(s[i] == sa[i - p]);
            assert(sa[i - p] == a.value[i - e2 - 1]);
        }
        assert(s[ve] == sa[ve - p]);
        lemma_find_char_at(s, e2 + 1, a.value.len() as int, '"');
        assert(s.subrange(e2 + 1, ve) =~= a.value) by {
            assert forall|i: int| 0 <= i < a.value.len() implies s.subrange(e2 + 1, ve)[i]
                == a.value[i] by {
                assert(s[e2 + 1 + i] == sa[e2 + 1 + i - p]);
            }
        }
        assert(s.subrange(p + 1, p + 1 + q.len()) =~= q) by {
            assert forall|i: int| 0 <= i < q.len() implies s.subrange(p + 1, p + 1 + q.len())[i]
                == q[i] by {
                assert(s[p + 1 + i] == sa[1 + i]);
            }
        }
        assert(ve + 1 == p + sa.len());
        lemma_attrs_rt(s, ve + 1, rest, close);
        assert(seq![a] + rest =~= attrs);
    }
}

proof fn lemma_ser_node_shape(n: NodeV)
    requires
        wf_node(n),
    ensures
        ser_node(n).len() >= 1,
        n is Text ==> ser_node(n)[0] != '<',
        !(n is Text) ==> ser_node(n).len() >= 2 && ser_node(n)[0] == '<' && ser_node(n)[1] != '/',
{
    match n {
        NodeV::Element(e) => {
            let q = qname(e.prefix, e.name);
            assert(is_name_char(q[0]));
            if e.children.len() == 0 {
                assert(ser_elem(e) == seq!['<'] + q + ser_attrs(e.attrs) + seq!['/', '>']);
                assert(ser_elem(e)[1] == q[0]);
            } else {
                assert(ser_elem(e) == seq!['<'] + q + ser_attrs(e.attrs) + seq!['>'] + ser_nodes(
                    e.children,
                ) + seq!['<', '/'] + q + seq!['>']);
                assert(ser_elem(e)[1] == q[0]);
            }
        },
        NodeV::Text(t) => {
            assert(!t.contains('<'));
            assert(t[0] != '<') by {
                if t[0] == '<' {
                    assert(t.contains('<'));
                }
            }
        },
        _ => {},
    }
}

proof fn lemma_no_gt(t: Seq<char>)
    requires
        !t.contains('>'),
    ensures
        !contains_lit(t, lit_gt()),
{
    if contains_lit(t, lit_gt()) {
        let k = choose|k: int| 0 <= k && k + lit_gt().len() <= t.len() && #[trigger] t.subrange(
            k,
            k + lit_gt().len(),
        ) == lit_gt();
        assert(t.subrange(k, k + 1)[0] == t[k]);
        assert(t.contains('>'));
    }
}

proof fn lemma_text_rt(s: Seq<char>, p: int, t: Seq<char>)
    requires
        wf_node(NodeV::Text(t)),
        at(s, p, t),
        p + t.len() == s.len() || s[p + t.len()] == '<',
    ensures
        sp_item(s, p) == Some((NodeV::Text(t), p + ser_node(NodeV::Text(t)).len())),
{
    let n = NodeV::Text(t);
    let w = ser_node(n);
    assert(s[p] == w[0]);
    assert forall|i: int| p <= i < p + t.len() implies #[trigger] s[i] != '<' by {
        assert(s[i] == t[i - p]);
        if t[i - p] == '<' {
            assert(t.contains('<'));
        }
    }
    assert(t[0] != '<') by {
        if t[0] == '<' {
            assert(t.contains('<'));
        }
    }
    lemma_text_end_at(s, p, t.len() as int);
    assert(s.subrange(p, p + t.len()) =~= t);
}

proof fn lemma_comment_rt(s: Seq<char>, p: int, t: Seq<char>)
    requires
        wf_node(NodeV::Comment(t)),
        at(s, p, ser_node(NodeV::Comment(t))),
    ensures
        sp_item(s, p) == Some((NodeV::Comment(t), p + ser_node(NodeV::Comment(t)).len())),
{
    let n = NodeV::Comment(t);
    let w = ser_node(n);
    assert(s[p] == w[0]);
    assert(w =~= lit_comment_open() + (t + lit_comment_close()));
    lemma_at_split(s, p, lit_comment_open(), t + lit_comment_close());
    lemma_at_starts(s, p, lit_comment_open());
    lemma_find_close(s, p + 4, t, lit_comment_close(), p + 4);
    lemma_at_split(s, p + 4, t, lit_comment_close());
    assert(s.subrange(p + 4, p + 4 + t.len()) =~= t);
}

proof fn lemma_cdata_rt(s: Seq<char>, p: int, t: Seq<char>)
    requires
        wf_node(NodeV::CData(t)),
        at(s, p, ser_node(NodeV::CData(t))),
    ensures
        sp_item(s, p) == Some((NodeV::CData(t), p + ser_node(NodeV::CData(t)).len())),
{
    let n = NodeV::CData(t);
    let w = ser_node(n);
    assert(s[p] == w[0]);
    assert(w =~= lit_cdata_open() + (t + lit_cdata_close()));
    lemma_at_split(s, p, lit_cdata_open(), t + lit_cdata_close());
    assert(!starts_at(s, p, lit_comment_open())) by {
        assert(s[p + 2] == lit_cdata_open()[2]);
        if starts_at(s, p, lit_comment_open()) {
            assert(s.subrange(p, p + 4)[2] == s[p + 2]);
        }
    }
    lemma_at_starts(s, p, lit_cdata_open());
    lemma_find_close(s, p + 9, t, lit_cdata_close(), p + 9);
    lemma_at_split(s, p + 9, t, lit_cdata_close());
    assert(s.subrange(p + 9, p + 9 + t.len()) =~= t);
}

proof fn lemma_pi_rt(s: Seq<char>, p: int, t: Seq<char>)
    requires
        wf_node(NodeV::ProcInst(t)),
        at(s, p, ser_node(NodeV::ProcInst(t))),
    ensures
        sp_item(s, p) == Some((NodeV::ProcInst(t), p + ser_node(NodeV::ProcInst(t)).len())),
{
    let n = NodeV::ProcInst(t);
    let w = ser_node(n);
    assert(s[p] == w[0]);
    assert(w =~= lit_pi_open() + (t + lit_pi_close()));
    lemma_at_split(s, p, lit_pi_open(), t + lit_pi_close());
    assert(s[p + 1] == '?');
    assert(!starts_at(s, p, lit_comment_open())) by {
        if starts_at(s, p, lit_comment_open()) {
            assert(s.subrange(p, p + 4)[1] == s[p + 1]);
        }
    }
    assert(!starts_at(s, p, lit_cdata_open())) by {
        if starts_at(s, p, lit_cdata_open()) {
            assert(s.subrange(p, p + 9)[1] == s[p + 1]);
        }
    }
    assert(!starts_at(s, p, lit_decl_open())) by {
        if starts_at(s, p, lit_decl_open()) {
            assert(s.subrange(p, p + 2)[1] == s[p + 1]);
        }
    }
    lemma_at_starts(s, p, lit_pi_open());
    lemma_find_close(s, p + 2, t, lit_pi_close(), p + 2);
    lemma_at_split(s, p + 2, t, lit_pi_close());
    assert(s.subrange(p + 2, p + 2 + t.len()) =~= t);
}

proof fn lemma_doctype_rt(s: Seq<char>, p: int, t: Seq<char>)
    requires
        wf_node(NodeV::Doctype(t)),
        at(s, p, ser_node(NodeV::Doctype(t))),
    ensures
        sp_item(s, p) == Some((NodeV::Doctype(t), p + ser_node(NodeV::Doctype(t)).len())),
{
    let n = NodeV::Doctype(t);
    let w = ser_node(n);
    assert(s[p] == w[0]);
    assert(w =~= lit_decl_open() + (t + lit_gt()));
    lemma_at_split(s, p, lit_decl_open(), t + lit_gt());
    lemma_at_split(s, p + 2, t, lit_gt());
    assert(!starts_at(s, p, lit_comment_open())) by {
        if starts_at(s, p, lit_comment_open()) {
            assert(s.subrange(p, p + 4)[2] == s[p + 2]);
            assert(s.subrange(p, p + 4)[3] == s[p + 3]);
            if t.len() >= 2 {
                assert(s[p + 2] == t[0]);
                assert(s[p + 3] == t[1]);
                assert(t.subrange(0, 2) =~= lit_dashes());
            } else if t.len() == 1 {
                assert(s[p + 3] == lit_gt()[0]);
            } else {
                assert(s[p + 2] == lit_gt()[0]);
            }
        }
    }
    assert(!starts_at(s, p, lit_cdata_open())) by {
        if starts_at(s, p, lit_cdata_open()) {
            if t.len() >= 7 {
                assert forall|i: int| 0 <= i < 7 implies t.subrange(0, 7)[i]
                    == lit_cdata_mark()[i] by {
                    assert(s[p + 2 + i] == t[i]);
                    assert(s.subrange(p, p + 9)[2 + i] == s[p + 2 + i]);
                }
                assert(t.subrange(0, 7) =~= lit_cdata_mark());
            } else {
                let j: int = 2 + t.len() as int;
                assert(s[p + j] == lit_gt()[0]);
                assert(s.subrange(p, p + 9)[j] == s[p + j]);
            }
        }
    }
    lemma_at_starts(s, p, lit_decl_open());
    lemma_no_gt(t);
    lemma_find_close(s, p + 2, t, lit_gt(), p + 2);
    assert(s.subrange(p + 2, p + 2 + t.len()) =~= t);
}

/// A node as written reads back as itself.
proof fn lemma_item_rt(s: Seq<char>, p: int, n: NodeV)
    requires
        wf_node(n),
        at(s, p, ser_node(n)),
        n is Text ==> p + ser_node(n).len() == s.len() || s[p + ser_node(n).len()] == '<',
    ensures
        sp_item(s, p) == Some((n, p + ser_node(n).len())),
    decreases n, 1int,
{
    match n {
        NodeV::Text(t) => lemma_text_rt(s, p, t),
        NodeV::Comment(t) => lemma_comment_rt(s, p, t),
        NodeV::CData(t) => lemma_cdata_rt(s, p, t),
        NodeV::ProcInst(t) => lemma_pi_rt(s, p, t),
        NodeV::Doctype(t) => lemma_doctype_rt(s, p, t),
        NodeV::Element(e) => lemma_elem_rt(s, p, e),
    }
}

/// The start of an element as written: `<` and a name that starts with neither `!` nor
/// `?`, so it reads as an element.
proof fn lemma_elem_head(s: Seq<char>, p: int, q: Seq<char>)
    requires
        at(s, p, seq!['<'] + q),
        q.len() > 0,
        q[0] != '!' && q[0] != '?',
    ensures
        !starts_at(s, p, lit_comment_open()),
        !starts_at(s, p, lit_cdata_open()),
        !starts_at(s, p, lit_decl_open()),
        !starts_at(s, p, lit_pi_open()),
        s[p] == '<',
{
    lemma_at_split(s, p, seq!['<'], q);
    assert(s[p] == seq!['<'][0]);
    assert(s[p + 1] == q[0]);
    if starts_at(s, p, lit_comment_open()) {
        assert(s.subrange(p, p + 4)[1] == s[p + 1]);
    }
    if starts_at(s, p, lit_cdata_open()) {
        assert(s.subrange(p, p + 9)[1] == s[p + 1]);
    }
    if starts_at(s, p, lit_decl_open()) {
        assert(s.subrange(p, p + 2)[1] == s[p + 1]);
    }
    if starts_at(s, p, lit_pi_open()) {
        assert(s.subrange(p, p + 2)[1] == s[p + 1]);
    }
}

/// An element as written reads back as itself.
#[verifier::rlimit(40)]
proof fn lemma_elem_rt(s: Seq<char>, p: int, e: ElemV)
    requires
        wf_node(NodeV::Element(e)),
        at(s, p, ser_node(NodeV::Element(e))),
    ensures
        sp_item(s, p) == Some((NodeV::Element(e), p + ser_node(NodeV::Element(e)).len())),
    decreases e, 2int,
{
    let w = ser_node(NodeV::Element(e));
    let q = qname(e.prefix, e.name);
    assert(is_name_char(q[0]));
    let close: Seq<char> = if e.children.len() == 0 {
        seq!['/', '>']
    } else {
        seq!['>']
    };
    let tail: Seq<char> = if e.children.len() == 0 {
        seq![]
    } else {
        ser_nodes(e.children) + seq!['<', '/'] + q + seq!['>']
    };
    assert(w =~= seq!['<'] + q + (ser_attrs(e.attrs) + close) + tail);
    lemma_at_split(s, p, seq!['<'] + q + (ser_attrs(e.attrs) + close), tail);
    lemma_at_split(s, p, seq!['<'] + q, ser_attrs(e.attrs) + close);
    lemma_at_split(s, p, seq!['<'], q);
    let ne = p + 1 + q.len();
    lemma_elem_head(s, p, q);
    assert forall|i: int| p + 1 <= i < ne implies is_name_char(#[trigger] s[i]) by {
        assert(s[i] == q[i - p - 1]);
    }
    lemma_at_split(s, ne, ser_attrs(e.attrs), close);
    let na = ser_attrs(e.attrs).len();
    if na > 0 {
        lemma_ser_attrs_front(e.attrs);
        assert(ser_attrs(e.attrs)[0] == ' ');
        assert(s[ne] == ser_attrs(e.attrs)[0]);
    } else {
        assert(s[ne] == close[0]);
    }
    lemma_name_end_at(s, p + 1, q.len() as int);
    assert(s.subrange(p + 1, ne) =~= q);
    lemma_attrs_rt(s, ne, e.attrs, close);
    let r = ne + na + close.len();
    if e.children.len() == 0 {
        assert(e.children =~= Seq::<NodeV>::empty());
    } else {
        let kids = ser_nodes(e.children);
        let endtag: Seq<char> = seq!['<', '/'] + q + seq!['>'];
        assert(tail =~= kids + endtag);
        lemma_at_split(s, r, kids, endtag);
        let c = r + kids.len();
        assert(endtag =~= lit_end_tag() + (q + seq!['>']));
        lemma_at_split(s, c, lit_end_tag(), q + seq!['>']);
        lemma_at_split(s, c + 2, q, seq!['>']);
        lemma_content_rt(s, r, e.children, true);
        assert forall|i: int| c + 2 <= i < c + 2 + q.len() implies is_name_char(
            #[trigger] s[i],
        ) by {
            assert(s[i] == q[i - c - 2]);
        }
        assert(s[c + 2 + q.len()] == seq!['>'][0]);
        lemma_name_end_at(s, c + 2, q.len() as int);
        lemma_ws_end_at(s, c + 2 + q.len(), 0);
        assert(s.subrange(c + 2, c + 2 + q.len()) =~= s.subrange(p + 1, ne));
    }
}

/// A sequence of nodes as written reads back as itself, up to the end of the text (at the
/// top level) or up to the end tag that follows (inside an element).
proof fn lemma_content_rt(s: Seq<char>, p: int, ns: Seq<NodeV>, inel: bool)
    requires
        wf_nodes(ns),
        at(s, p, ser_nodes(ns)),
        inel ==> at(s, p + ser_nodes(ns).len(), lit_end_tag()),
        !inel ==> p + ser_nodes(ns).len() == s.len(),
    ensures
        sp_content(s, p, inel) == Some((ns, p + ser_nodes(ns).len())),
    decreases ns, 0int,
{
    if ns.len() == 0 {
        if inel {
            lemma_at_starts(s, p, lit_end_tag());
        }
    } else {
        let n = ns[0];
        let rest = ns.drop_first();
        lemma_ser_nodes_front(ns);
        lemma_at_split(s, p, ser_node(n), ser_nodes(rest));
        lemma_ser_node_shape(n);
        let e1 = p + ser_node(n).len();
        assert(s[p] == ser_node(n)[0]);
        assert(!starts_at(s, p, lit_end_tag())) by {
            if starts_at(s, p, lit_end_tag()) {
                assert(s.subrange(p, p + 2)[0] == s[p]);
                assert(s.subrange(p, p + 2)[1] == s[p + 1]);
                if !(n is Text) {
                    assert(s[p + 1] == ser_node(n)[1]);
                }
            }
        }
        assert(wf_node(n));
        assert(wf_nodes(rest));
        if n is Text {
            if rest.len() > 0 {
                assert(wf_node(rest[0]));
                lemma_ser_nodes_front(rest);
                lemma_at_split(s, e1, ser_node(rest[0]), ser_nodes(rest.drop_first()));
                lemma_ser_node_shape(rest[0]);
                assert(s[e1] == ser_node(rest[0])[0]);
            } else if inel {
                assert(s[e1] == lit_end_tag()[0]);
            }
        }
        lemma_item_rt(s, p, n);
        lemma_content_rt(s, e1, rest, inel);
        assert(seq![n] + rest =~= ns);
    }
}

/// Reading back what is written: a well-formed document, written out, reads back as the
/// same document.
pub proof fn lemma_parse_serialize(d: Seq<NodeV>)
    requires
        wf_nodes(d),
    ensures
        sp_parse(ser_nodes(d)) == Some(d),
{
    let s = ser_nodes(d);
    lemma_content_rt(s, 0, d, false);
}

} // verus!

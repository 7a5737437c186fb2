//! The SVG/XML reader: a function from text to a `Document`.
use vstd::prelude::*;

use crate::ast::{
    attrs_view, lemma_attrs_view_add, lemma_attrs_view_push, elem_view, lemma_nodes_view_len, lemma_nodes_view_push, nodes_view, opt_view,
    AttrV, Attribute, Document, ElemV, Element, Node, NodeV,
};
use crate::text::{chars_of, is_xml_ws, push_char, string_from_range, string_of};

verus! {

broadcast use vstd::std_specs::vec::group_vec_axioms, vstd::array::group_array_axioms,
    vstd::slice::group_slice_axioms;

/// The input is not well-formed markup.
#[derive(Debug)]
pub struct ParseError {
    /// Offset (in characters) at which reading stopped.
    pub offset: usize,
}

impl ParseError {
    /// A human-readable description.
    pub fn message(&self) -> (s: String)
        ensures
            s@ == "malformed SVG markup"@,
    {
        string_of("malformed SVG markup")
    }
}

// ---------------------------------------------------------------------------
// The grammar, as spec functions over character sequences.
// ---------------------------------------------------------------------------

/// Characters that may appear in element and attribute names.
pub open spec fn is_name_char(c: char) -> bool {
    !is_xml_ws(c) && c != '<' && c != '>' && c != '/' && c != '=' && c != '"' && c != '\''
}

/// First position at or after `p` that does not hold a name character.
pub open spec fn name_end(s: Seq<char>, p: int) -> int
    decreases s.len() - p,
{
    if p < 0 || p >= s.len() || !is_name_char(s[p]) {
        p
    } else {
        name_end(s, p + 1)
    }
}

/// First position at or after `p` that does not hold white space.
pub open spec fn ws_end(s: Seq<char>, p: int) -> int
    decreases s.len() - p,
{
    if p < 0 || p >= s.len() || !is_xml_ws(s[p]) {
        p
    } else {
        ws_end(s, p + 1)
    }
}

/// First position at or after `p` that holds `<` (or the end).
pub open spec fn text_end(s: Seq<char>, p: int) -> int
    decreases s.len() - p,
{
    if p < 0 || p >= s.len() || s[p] == '<' {
        p
    } else {
        text_end(s, p + 1)
    }
}

/// Whether `lit` occurs in `s` at position `p`.
pub open spec fn starts_at(s: Seq<char>, p: int, lit: Seq<char>) -> bool {
    0 <= p && p + lit.len() <= s.len() && s.subrange(p, p + lit.len()) == lit
}

/// First position at or after `p` where `lit` occurs.
pub open spec fn find_from(s: Seq<char>, p: int, lit: Seq<char>) -> Option<int>
    decreases s.len() - p,
{
    if p < 0 || p >= s.len() || p + lit.len() > s.len() {
        None
    } else if starts_at(s, p, lit) {
        Some(p)
    } else {
        find_from(s, p + 1, lit)
    }
}

pub open spec fn lit_comment_open() -> Seq<char> {
    seq!['<', '!', '-', '-']
}

pub open spec fn lit_comment_close() -> Seq<char> {
    seq!['-', '-', '>']
}

pub open spec fn lit_cdata_open() -> Seq<char> {
    seq!['<', '!', '[', 'C', 'D', 'A', 'T', 'A', '[']
}

pub open spec fn lit_cdata_close() -> Seq<char> {
    seq![']', ']', '>']
}

pub open spec fn lit_decl_open() -> Seq<char> {
    seq!['<', '!']
}

pub open spec fn lit_pi_open() -> Seq<char> {
    seq!['<', '?']
}

pub open spec fn lit_pi_close() -> Seq<char> {
    seq!['?', '>']
}

pub open spec fn lit_end_tag() -> Seq<char> {
    seq!['<', '/']
}

pub open spec fn lit_gt() -> Seq<char> {
    seq!['>']
}

pub open spec fn lit_quot_entity() -> Seq<char> {
    seq!['&', 'q', 'u', 'o', 't', ';']
}

/// A value read between single quotes holds its `"` characters as `&quot;`,
/// so that every stored attribute value can be written between double quotes.
pub open spec fn escape_quot(v: Seq<char>) -> Seq<char>
    decreases v.len(),
{
    if v.len() == 0 {
        v
    } else {
        escape_quot(v.drop_last()) + (if v.last() == '"' {
            lit_quot_entity()
        } else {
            seq![v.last()]
        })
    }
}

/// First position at or after `p` holding the character `c`.
pub open spec fn find_char(s: Seq<char>, p: int, c: char) -> Option<int>
    decreases s.len() - p,
{
    if p < 0 || p >= s.len() {
        None
    } else if s[p] == c {
        Some(p)
    } else {
        find_char(s, p + 1, c)
    }
}

/// A qualified name split at its first colon, when that colon has characters on both sides.
pub open spec fn split_qname(q: Seq<char>) -> (Option<Seq<char>>, Seq<char>) {
    match find_char(q, 0, ':') {
        Some(i) => if 0 < i < q.len() - 1 {
            (Some(q.subrange(0, i)), q.subrange(i + 1, q.len() as int))
        } else {
            (None, q)
        },
        None => (None, q),
    }
}

/// The attribute list of a start tag, from position `p` to the end of the tag.
/// Yields the attributes, the position after the tag, and whether the tag closed itself.
pub open spec fn sp_attrs(s: Seq<char>, p: int) -> Option<(Seq<AttrV>, int, bool)>
    decreases s.len() - p,
{
    let q = ws_end(s, p);
    if p < 0 || q >= s.len() {
        None
    } else if s[q] == '/' {
        if q + 1 < s.len() && s[q + 1] == '>' {
            Some((Seq::empty(), q + 2, true))
        } else {
            None
        }
    } else if s[q] == '>' {
        Some((Seq::empty(), q + 1, false))
    } else {
        let ae = name_end(s, q);
        let e1 = ws_end(s, ae);
        if ae == q || e1 >= s.len() || s[e1] != '=' {
            None
        } else {
            let e2 = ws_end(s, e1 + 1);
            if e2 >= s.len() || (s[e2] != '"' && s[e2] != '\'') {
                None
            } else {
                match find_char(s, e2 + 1, s[e2]) {
                    None => None,
                    Some(ve) => {
                        let raw = s.subrange(e2 + 1, ve);
                        let value = if s[e2] == '"' {
                            raw
                        } else {
                            escape_quot(raw)
                        };
                        let (prefix, name) = split_qname(s.subrange(q, ae));
                        let attr = AttrV { prefix, name, value };
                        if ve + 1 <= p || ve + 1 > s.len() {
                            None
                        } else {
                            match sp_attrs(s, ve + 1) {
                                Some((rest, r, sc)) => Some((seq![attr] + rest, r, sc)),
                                None => None,
                            }
                        }
                    },
                }
            }
        }
    }
}

/// The sequence of nodes starting at `p`.  Inside an element (`inel`), the sequence ends at
/// the first `</`; at the top level it ends at the end of the input, and `</` is an error.
pub open spec fn sp_content(s: Seq<char>, p: int, inel: bool) -> Option<(Seq<NodeV>, int)>
    decreases s.len() - p, 2int,
{
    if p < 0 || p > s.len() {
        None
    } else if p == s.len() {
        if inel {
            None
        } else {
            Some((Seq::empty(), p))
        }
    } else if starts_at(s, p, lit_end_tag()) {
        if inel {
            Some((Seq::empty(), p))
        } else {
            None
        }
    } else {
        match sp_item(s, p) {
            None => None,
            Some((n, q)) => if q <= p || q > s.len() {
                None
            } else {
                match sp_content(s, q, inel) {
                    Some((ns, r)) => Some((seq![n] + ns, r)),
                    None => None,
                }
            },
        }
    }
}

/// One node starting at `p` (which is not the start of an end tag).
pub open spec fn sp_item(s: Seq<char>, p: int) -> Option<(NodeV, int)>
    decreases s.len() - p, 1int,
{
    if p < 0 || p >= s.len() {
        None
    } else if s[p] != '<' {
        Some((NodeV::Text(s.subrange(p, text_end(s, p))), text_end(s, p)))
    } else if starts_at(s, p, lit_comment_open()) {
        match find_from(s, p + 4, lit_comment_close()) {
            Some(q) => Some((NodeV::Comment(s.subrange(p + 4, q)), q + 3)),
            None => None,
        }
    } else if starts_at(s, p, lit_cdata_open()) {
        match find_from(s, p + 9, lit_cdata_close()) {
            Some(q) => Some((NodeV::CData(s.subrange(p + 9, q)), q + 3)),
            None => None,
        }
    } else if starts_at(s, p, lit_decl_open()) {
        match find_from(s, p + 2, lit_gt()) {
            Some(q) => Some((NodeV::Doctype(s.subrange(p + 2, q)), q + 1)),
            None => None,
        }
    } else if starts_at(s, p, lit_pi_open()) {
        match find_from(s, p + 2, lit_pi_close()) {
            Some(q) => Some((NodeV::ProcInst(s.subrange(p + 2, q)), q + 2)),
            None => None,
        }
    } else {
        match sp_element(s, p) {
            Some((e, q)) => Some((NodeV::Element(e), q)),
            None => None,
        }
    }
}

/// An element starting at `p` (where `s[p]` is `<`).
pub open spec fn sp_element(s: Seq<char>, p: int) -> Option<(ElemV, int)>
    decreases s.len() - p, 0int,
{
    if p < 0 || p >= s.len() {
        None
    } else {
        let ne = name_end(s, p + 1);
        if ne == p + 1 || ne > s.len() {
            None
        } else {
            let qname = s.subrange(p + 1, ne);
            let (prefix, name) = split_qname(qname);
            match sp_attrs(s, ne) {
                None => None,
                Some((attrs, r, self_closing)) => {
                    if self_closing {
                        Some((ElemV { prefix, name, attrs, children: Seq::empty() }, r))
                    } else if r <= p || r > s.len() {
                        None
                    } else {
                        match sp_content(s, r, true) {
                            None => None,
                            Some((children, c)) => {
                                let ce = name_end(s, c + 2);
                                let w = ws_end(s, ce);
                                if c + 2 > s.len() || s.subrange(c + 2, ce) != qname || w
                                    >= s.len() || s[w] != '>' {
                                    None
                                } else {
                                    Some((ElemV { prefix, name, attrs, children }, w + 1))
                                }
                            },
                        }
                    }
                },
            }
        }
    }
}

/// The document that the text `s` denotes, if it is well-formed.
pub open spec fn sp_parse(s: Seq<char>) -> Option<Seq<NodeV>> {
    match sp_content(s, 0, false) {
        Some((ns, _)) => Some(ns),
        None => None,
    }
}

// ---------------------------------------------------------------------------
// Lemmas on the scanning functions.
// ---------------------------------------------------------------------------

pub proof fn lemma_name_end(s: Seq<char>, p: int)
    requires
        0 <= p <= s.len(),
    ensures
        p <= name_end(s, p) <= s.len(),
        forall|i: int| p <= i < name_end(s, p) ==> is_name_char(#[trigger] s[i]),
        name_end(s, p) < s.len() ==> !is_name_char(s[name_end(s, p)]),
    decreases s.len() - p,
{
    if p < s.len() && is_name_char(s[p]) {
        lemma_name_end(s, p + 1);
    }
}

pub proof fn lemma_ws_end(s: Seq<char>, p: int)
    requires
        0 <= p <= s.len(),
    ensures
        p <= ws_end(s, p) <= s.len(),
        forall|i: int| p <= i < ws_end(s, p) ==> is_xml_ws(#[trigger] s[i]),
        ws_end(s, p) < s.len() ==> !is_xml_ws(s[ws_end(s, p)]),
    decreases s.len() - p,
{
    if p < s.len() && is_xml_ws(s[p]) {
        lemma_ws_end(s, p + 1);
    }
}

pub proof fn lemma_text_end(s: Seq<char>, p: int)
    requires
        0 <= p <= s.len(),
    ensures
        p <= text_end(s, p) <= s.len(),
        forall|i: int| p <= i < text_end(s, p) ==> #[trigger] s[i] != '<',
        text_end(s, p) < s.len() ==> s[text_end(s, p)] == '<',
    decreases s.len() - p,
{
    if p < s.len() && s[p] != '<' {
        lemma_text_end(s, p + 1);
    }
}

pub proof fn lemma_find_from(s: Seq<char>, p: int, lit: Seq<char>)
    requires
        0 <= p,
        lit.len() > 0,
    ensures
        match find_from(s, p, lit) {
            Some(q) => p <= q && q + lit.len() <= s.len() && starts_at(s, q, lit) && forall|i: int|
                p <= i < q ==> !starts_at(s, i, lit),
            None => forall|i: int| p <= i ==> !starts_at(s, i, lit),
        },
    decreases s.len() - p,
{
    if p >= s.len() || p + lit.len() > s.len() {
    } else if starts_at(s, p, lit) {
    } else {
        lemma_find_from(s, p + 1, lit);
    }
}

pub proof fn lemma_find_char(s: Seq<char>, p: int, c: char)
    requires
        0 <= p,
    ensures
        match find_char(s, p, c) {
            Some(q) => p <= q < s.len() && s[q] == c && forall|i: int| p <= i < q ==> s[i] != c,
            None => forall|i: int| p <= i < s.len() ==> s[i] != c,
        },
    decreases s.len() - p,
{
    if p < s.len() && s[p] != c {
        lemma_find_char(s, p + 1, c);
    }
}

// ---------------------------------------------------------------------------
// Executable scanners.
// ---------------------------------------------------------------------------

pub fn is_xml_ws_exec(c: char) -> (b: bool)
    ensures
        b == is_xml_ws(c),
{
    c == ' ' || c == '\t' || c == '\n' || c == '\r'
}

pub fn is_name_char_exec(c: char) -> (b: bool)
    ensures
        b == is_name_char(c),
{
    !is_xml_ws_exec(c) && c != '<' && c != '>' && c != '/' && c != '=' && c != '"' && c != '\''
}

fn scan_name(s: &Vec<char>, p: usize) -> (q: usize)
    requires
        p <= s@.len(),
    ensures
        q as int == name_end(s@, p as int),
        p <= q <= s@.len(),
{
    let mut q = p;
    while q < s.len() && is_name_char_exec(s[q])
        invariant
            p <= q <= s@.len(),
            name_end(s@, p as int) == name_end(s@, q as int),
        decreases s@.len() - q,
    {
        q += 1;
    }
    q
}

fn scan_ws(s: &Vec<char>, p: usize) -> (q: usize)
    requires
        p <= s@.len(),
    ensures
        q as int == ws_end(s@, p as int),
        p <= q <= s@.len(),
{
    let mut q = p;
    while q < s.len() && is_xml_ws_exec(s[q])
        invariant
            p <= q <= s@.len(),
            ws_end(s@, p as int) == ws_end(s@, q as int),
        decreases s@.len() - q,
    {
        q += 1;
    }
    q
}

fn scan_text(s: &Vec<char>, p: usize) -> (q: usize)
    requires
        p <= s@.len(),
    ensures
        q as int == text_end(s@, p as int),
        p <= q <= s@.len(),
{
    let mut q = p;
    while q < s.len() && s[q] != '<'
        invariant
            p <= q <= s@.len(),
            text_end(s@, p as int) == text_end(s@, q as int),
        decreases s@.len() - q,
    {
        q += 1;
    }
    q
}

fn at_lit(s: &Vec<char>, p: usize, lit: &[char]) -> (b: bool)
    ensures
        b == starts_at(s@, p as int, lit@),
{
    if p > s.len() || lit.len() > s.len() - p {
        return false;
    }
    let mut i: usize = 0;
    while i < lit.len()
        invariant
            p <= s@.len(),
            p + lit@.len() <= s.len(),
            0 <= i <= lit@.len(),
            s@.subrange(p as int, p + i) == lit@.subrange(0, i as int),
        decreases lit@.len() - i,
    {
        if s[p + i] != lit[i] {
            assert(s@.subrange(p as int, p + lit@.len())[i as int] != lit@[i as int]);
            return false;
        }
        i += 1;
        assert(s@.subrange(p as int, p + i) =~= lit@.subrange(0, i as int));
    }
    assert(lit@.subrange(0, lit@.len() as int) =~= lit@);
    true
}

fn find_lit(s: &Vec<char>, p: usize, lit: &[char]) -> (r: Option<usize>)
    requires
        p <= s@.len(),
        lit@.len() > 0,
    ensures
        match r {
            Some(q) => find_from(s@, p as int, lit@) == Some(q as int) && q + lit@.len() <= s@.len()
                && p <= q,
            None => find_from(s@, p as int, lit@) is None,
        },
{
    proof {
        lemma_find_from(s@, p as int, lit@);
    }
    let mut q = p;
    while q < s.len() && lit.len() <= s.len() - q
        invariant
            p <= q <= s@.len(),
            lit@.len() > 0,
            find_from(s@, p as int, lit@) == find_from(s@, q as int, lit@),
        decreases s@.len() - q,
    {
        if at_lit(s, q, lit) {
            return Some(q);
        }
        q += 1;
    }
    None
}

fn find_ch(s: &Vec<char>, p: usize, c: char) -> (r: Option<usize>)
    requires
        p <= s@.len(),
    ensures
        match r {
            Some(q) => find_char(s@, p as int, c) == Some(q as int) && q < s@.len(),
            None => find_char(s@, p as int, c) is None,
        },
{
    let mut q = p;
    while q < s.len()
        invariant
            p <= q <= s@.len(),
            find_char(s@, p as int, c) == find_char(s@, q as int, c),
        decreases s@.len() - q,
    {
        if s[q] == c {
            return Some(q);
        }
        q += 1;
    }
    None
}

/// The characters `s[a..b]`, with each `"` written as `&quot;`.
fn escaped_range(s: &Vec<char>, a: usize, b: usize) -> (r: String)
    requires
        a <= b <= s@.len(),
    ensures
        r@ == escape_quot(s@.subrange(a as int, b as int)),
{
    let mut out = String::new();
    let mut i = a;
    while i < b
        invariant
            a <= i <= b <= s@.len(),
            out@ == escape_quot(s@.subrange(a as int, i as int)),
        decreases b - i,
    {
        let c = s[i];
        let ghost prev = s@.subrange(a as int, i as int);
        assert(s@.subrange(a as int, i + 1).drop_last() =~= prev);
        if c == '"' {
            push_char(&mut out, '&');
            push_char(&mut out, 'q');
            push_char(&mut out, 'u');
            push_char(&mut out, 'o');
            push_char(&mut out, 't');
            push_char(&mut out, ';');
        } else {
            push_char(&mut out, c);
        }
        i += 1;
        assert(out@ =~= escape_quot(s@.subrange(a as int, i as int)));
    }
    out
}

fn split_name(s: &Vec<char>, a: usize, b: usize) -> (r: (Option<String>, String))
    requires
        a <= b <= s@.len(),
    ensures
        (opt_view(r.0), r.1@) == split_qname(s@.subrange(a as int, b as int)),
{
    let ghost q = s@.subrange(a as int, b as int);
    let mut i = a;
    while i < b && s[i] != ':'
        invariant
            a <= i <= b,
            b <= s@.len(),
            q == s@.subrange(a as int, b as int),
            find_char(q, 0, ':') == find_char(q, i as int - a as int, ':'),
        decreases b - i,
    {
        assert(q[i as int - a as int] == s@[i as int]);
        i += 1;
    }
    proof {
        if i < b {
            assert(q[i as int - a as int] == s@[i as int]);
        }
        lemma_find_char(q, i as int - a as int, ':');
    }
    if i < b && a < i && i + 1 < b {
        (Some(string_from_range(s, a, i)), string_from_range(s, i + 1, b))
    } else {
        (None, string_from_range(s, a, b))
    }
}

fn parse_attrs(s: &Vec<char>, p: usize) -> (r: Option<(Vec<Attribute>, usize, bool)>)
    requires
        p <= s@.len(),
    ensures
        match r {
            Some((v, q, sc)) => sp_attrs(s@, p as int) == Some((attrs_view(v@), q as int, sc))
                && q <= s@.len(),
            None => sp_attrs(s@, p as int) is None,
        },
    decreases s@.len() - p,
{
    let q = scan_ws(s, p);
    if q >= s.len() {
        return None;
    }
    if s[q] == '/' {
        if q + 1 < s.len() && s[q + 1] == '>' {
            let v: Vec<Attribute> = Vec::new();
            assert(attrs_view(v@) =~= Seq::<AttrV>::empty());
            return Some((v, q + 2, true));
        }
        return None;
    }
    if s[q] == '>' {
        let v: Vec<Attribute> = Vec::new();
        assert(attrs_view(v@) =~= Seq::<AttrV>::empty());
        return Some((v, q + 1, false));
    }
    let ae = scan_name(s, q);
    let e1 = scan_ws(s, ae);
    if ae == q || e1 >= s.len() || s[e1] != '=' {
        return None;
    }
    let e2 = scan_ws(s, e1 + 1);
    if e2 >= s.len() || (s[e2] != '"' && s[e2] != '\'') {
        return None;
    }
    let quote = s[e2];
    match find_ch(s, e2 + 1, quote) {
        None => None,
        Some(ve) => {
            proof {
                lemma_find_char(s@, e2 + 1, quote);
            }
            let value = if quote == '"' {
                string_from_range(s, e2 + 1, ve)
            } else {
                escaped_range(s, e2 + 1, ve)
            };
            let (prefix, name) = split_name(s, q, ae);
            let attr = Attribute { prefix, name, value };
            match parse_attrs(s, ve + 1) {
                None => None,
                Some((rest, r, sc)) => {
                    let mut v: Vec<Attribute> = Vec::new();
                    v.push(attr);
                    let mut rest = rest;
                    let ghost rv = rest@;
                    let ghost first = v@;
                    v.append(&mut rest);
                    proof {
                        lemma_attrs_view_add(first, rv);
                        assert(v@ == first + rv);
                        lemma_attrs_view_push(Seq::<Attribute>::empty(), attr);
                        assert(first =~= Seq::<Attribute>::empty().push(attr));
                        assert(attrs_view(Seq::<Attribute>::empty()) =~= Seq::<AttrV>::empty());
                        assert(attrs_view(first) =~= seq![attr@]);
                    }
                    Some((v, r, sc))
                },
            }
        },
    }
}

fn parse_content(s: &Vec<char>, p: usize, inel: bool) -> (r: Option<(Vec<Node>, usize)>)
    requires
        p <= s@.len(),
    ensures
        match r {
            Some((v, q)) => sp_content(s@, p as int, inel) == Some((nodes_view(v@), q as int))
                && q <= s@.len(),
            None => sp_content(s@, p as int, inel) is None,
        },
    decreases s@.len() - p, 2int,
{
    let ghost gp = p;
    let mut out: Vec<Node> = Vec::new();
    let mut q = p;
    let end_tag = ['<', '/'];
    assert(end_tag@ == lit_end_tag());
    loop
        invariant
            gp == p,
            p <= q <= s@.len(),
            end_tag@ == lit_end_tag(),
            sp_content(s@, gp as int, inel) == match sp_content(s@, q as int, inel) {
                Some((ns, e)) => Some((nodes_view(out@) + ns, e)),
                None => None::<(Seq<NodeV>, int)>,
            },
        decreases s@.len() - q,
    {
        proof {
            lemma_nodes_view_len(out@);
        }
        if q == s.len() {
            if inel {
                assert(sp_content(s@, q as int, inel) is None);
                return None;
            }
            assert(nodes_view(out@) + Seq::<NodeV>::empty() =~= nodes_view(out@));
            return Some((out, q));
        }
        if at_lit(s, q, end_tag.as_slice()) {
            if inel {
                assert(nodes_view(out@) + Seq::<NodeV>::empty() =~= nodes_view(out@));
                return Some((out, q));
            }
            assert(sp_content(s@, q as int, inel) is None);
            return None;
        }
        match parse_item(s, q) {
            None => {
                assert(sp_content(s@, q as int, inel) is None);
                return None;
            },
            Some((n, nq)) => {
                if nq <= q {
                    assert(sp_content(s@, q as int, inel) is None);
                    return None;
                }
                let ghost nv = n@;
                let ghost gn = n;
                let ghost old_out = out@;
                let ghost before = nodes_view(out@);
                out.push(n);
                proof {
                    lemma_nodes_view_push(old_out, gn);
                    assert(old_out.push(gn) =~= out@);
                    match sp_content(s@, nq as int, inel) {
                        Some((ns, e)) => {
                            assert(before + (seq![nv] + ns) =~= nodes_view(out@) + ns);
                        },
                        None => {},
                    }
                }
                q = nq;
            },
        }
    }
}

fn parse_item(s: &Vec<char>, p: usize) -> (r: Option<(Node, usize)>)
    requires
        p < s.len(),
    ensures
        match r {
            Some((n, q)) => sp_item(s@, p as int) == Some((n@, q as int)) && q <= s@.len(),
            None => sp_item(s@, p as int) is None,
        },
    decreases s@.len() - p, 1int,
{
    if s[p] != '<' {
        let e = scan_text(s, p);
        return Some((Node::Text(string_from_range(s, p, e)), e));
    }
    let comment_open = ['<', '!', '-', '-'];
    let comment_close = ['-', '-', '>'];
    let cdata_open = ['<', '!', '[', 'C', 'D', 'A', 'T', 'A', '['];
    let cdata_close = [']', ']', '>'];
    let decl_open = ['<', '!'];
    let gt = ['>'];
    let pi_open = ['<', '?'];
    let pi_close = ['?', '>'];
    let sl_comment_open = comment_open.as_slice();
    assert(sl_comment_open@ == lit_comment_open());
    let sl_comment_close = comment_close.as_slice();
    assert(sl_comment_close@ == lit_comment_close());
    let sl_cdata_open = cdata_open.as_slice();
    assert(sl_cdata_open@ == lit_cdata_open());
    let sl_cdata_close = cdata_close.as_slice();
    assert(sl_cdata_close@ == lit_cdata_close());
    let sl_decl_open = decl_open.as_slice();
    assert(sl_decl_open@ == lit_decl_open());
    let sl_gt = gt.as_slice();
    assert(sl_gt@ == lit_gt());
    let sl_pi_open = pi_open.as_slice();
    assert(sl_pi_open@ == lit_pi_open());
    let sl_pi_close = pi_close.as_slice();
    assert(sl_pi_close@ == lit_pi_close());
    if at_lit(s, p, sl_comment_open) {
        match find_lit(s, p + 4, sl_comment_close) {
            Some(q) => Some((Node::Comment(string_from_range(s, p + 4, q)), q + 3)),
            None => None,
        }
    } else if at_lit(s, p, sl_cdata_open) {
        match find_lit(s, p + 9, sl_cdata_close) {
            Some(q) => Some((Node::CData(string_from_range(s, p + 9, q)), q + 3)),
            None => None,
        }
    } else if at_lit(s, p, sl_decl_open) {
        match find_lit(s, p + 2, sl_gt) {
            Some(q) => Some((Node::Doctype(string_from_range(s, p + 2, q)), q + 1)),
            None => None,
        }
    } else if at_lit(s, p, sl_pi_open) {
        match find_lit(s, p + 2, sl_pi_close) {
            Some(q) => Some((Node::ProcessingInstruction(string_from_range(s, p + 2, q)), q + 2)),
            None => None,
        }
    } else {
        match parse_element(s, p) {
            Some((e, q)) => Some((Node::Element(e), q)),
            None => None,
        }
    }
}

fn parse_element(s: &Vec<char>, p: usize) -> (r: Option<(Element, usize)>)
    requires
        p < s.len(),
    ensures
        match r {
            Some((e, q)) => sp_element(s@, p as int) == Some((elem_view(e), q as int)) && q
                <= s@.len(),
            None => sp_element(s@, p as int) is None,
        },
    decreases s@.len() - p, 0int,
{
    let ne = scan_name(s, p + 1);
    if ne == p + 1 {
        return None;
    }
    let (prefix, name) = split_name(s, p + 1, ne);
    match parse_attrs(s, ne) {
        None => None,
        Some((attributes, r, self_closing)) => {
            if self_closing {
                let children: Vec<Node> = Vec::new();
                let e = Element { prefix, name, attributes, children };
                assert(nodes_view(e.children@) =~= Seq::<NodeV>::empty());
                return Some((e, r));
            }
            if r <= p {
                return None;
            }
            match parse_content(s, r, true) {
                None => None,
                Some((children, c)) => {
                    if c >= s.len() || s.len() - c < 2 {
                        return None;
                    }
                    let ce = scan_name(s, c + 2);
                    let w = scan_ws(s, ce);
                    if !same_range(s, c + 2, ce, p + 1, ne) || w >= s.len() || s[w] != '>' {
                        return None;
                    }
                    Some((Element { prefix, name, attributes, children }, w + 1))
                },
            }
        },
    }
}

/// Whether `s[a..b]` and `s[c..d]` hold the same characters.
fn same_range(s: &Vec<char>, a: usize, b: usize, c: usize, d: usize) -> (r: bool)
    requires
        a <= b <= s@.len(),
        c <= d <= s@.len(),
    ensures
        r == (s@.subrange(a as int, b as int) == s@.subrange(c as int, d as int)),
{
    if b - a != d - c {
        assert(s@.subrange(a as int, b as int).len() != s@.subrange(c as int, d as int).len());
        return false;
    }
    let mut i: usize = 0;
    while i < b - a
        invariant
            b - a == d - c,
            a <= b <= s@.len(),
            c <= d <= s@.len(),
            0 <= i <= b - a,
            s@.subrange(a as int, a + i) == s@.subrange(c as int, c + i),
        decreases b - a - i,
    {
        if s[a + i] != s[c + i] {
            assert(s@.subrange(a as int, b as int)[i as int] != s@.subrange(c as int, d as int)[i as int]);
            return false;
        }
        i += 1;
        assert(s@.subrange(a as int, a + i) =~= s@.subrange(c as int, c + i));
    }
    assert(a + i == b && c + i == d);
    true
}

/// Reads an SVG document.
pub fn parse(input: &str) -> (r: Result<Document, ParseError>)
    ensures
        match r {
            Ok(d) => sp_parse(input@) == Some(d@),
            Err(_) => sp_parse(input@) is None,
        },
{
    let s = chars_of(input);
    match parse_content(&s, 0, false) {
        Some((children, _)) => Ok(Document { children }),
        None => Err(ParseError { offset: 0 }),
    }
}

} // verus!

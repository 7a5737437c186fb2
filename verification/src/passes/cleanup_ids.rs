//! Clean-up of `id` attributes: an id that nothing references goes, and a referenced id
//! gets the shortest free name, its references with it.
use vstd::prelude::*;

use super::{result_from, Pass, PassResult};
use crate::ast::{
    attrs_view, clone_node, clone_opt, lemma_attrs_view, lemma_attrs_view_push,
    lemma_nodes_view_len, lemma_nodes_view_push, lemma_take_all, lemma_take_push, nodes_view,
    AttrV, Attribute, Document, ElemV, Element, Node, NodeV,
};
use crate::text::{chars_eq, chars_of, extend_chars, is_lit, string_from_chars};

verus! {

broadcast use vstd::std_specs::vec::group_vec_axioms;

/// Removes unreferenced ids and shortens referenced ones. A document with a `<style>`,
/// a `<script>`, a `<foreignObject>` or an animation element is left as it is, since those
/// may name ids in ways this pass does not read; so is one with a `<symbol>` or `<defs>`
/// that has an id, which other documents may reference and which must stay.
pub struct CleanupIds;

// ---------------------------------------------------------------------------
// References.
// ---------------------------------------------------------------------------

pub open spec fn is_id_char(c: char) -> bool {
    ('a' <= c && c <= 'z') || ('A' <= c && c <= 'Z') || ('0' <= c && c <= '9') || c == '-' || c
        == '_' || c == '.' || c == ':'
}

/// The end of the run of id characters that starts at `p`.
pub open spec fn id_end(v: Seq<char>, p: int) -> int
    decreases v.len() - p,
{
    if 0 <= p < v.len() && is_id_char(v[p]) {
        id_end(v, p + 1)
    } else {
        p
    }
}

/// Where the id of a `url(#id)` reference at `p` starts: after `url(`, an optional quote
/// and `#`.
pub open spec fn url_id_start(v: Seq<char>, p: int) -> Option<int> {
    if 0 <= p && p + 4 < v.len() && v[p] == 'u' && v[p + 1] == 'r' && v[p + 2] == 'l' && v[p + 3]
        == '(' {
        let q = if v[p + 4] == '\'' || v[p + 4] == '"' {
            p + 5
        } else {
            p + 4
        };
        if q < v.len() && v[q] == '#' {
            Some(q + 1)
        } else {
            None
        }
    } else {
        None
    }
}

/// The ids that the `url(#id)` references of `v` name, from `p` on, in order.
pub open spec fn url_refs(v: Seq<char>, p: int) -> Seq<Seq<char>>
    decreases v.len() - p,
{
    if p < 0 || p >= v.len() {
        Seq::empty()
    } else {
        match url_id_start(v, p) {
            Some(q) => {
                let e = id_end(v, q);
                if q < e <= v.len() {
                    seq![v.subrange(q, e)] + url_refs(v, e)
                } else {
                    url_refs(v, p + 1)
                }
            },
            None => url_refs(v, p + 1),
        }
    }
}

/// The id that an `href` (or `xlink:href`) of the form `#id` names.
pub open spec fn href_ref(a: AttrV) -> Option<Seq<char>> {
    if a.name == "href"@ && (a.prefix is None || a.prefix == Some("xlink"@)) && a.value.len() > 1
        && a.value[0] == '#' {
        Some(a.value.subrange(1, a.value.len() as int))
    } else {
        None
    }
}

pub open spec fn attr_refs(a: AttrV) -> Seq<Seq<char>> {
    url_refs(a.value, 0) + match href_ref(a) {
        Some(x) => seq![x],
        None => Seq::empty(),
    }
}

pub open spec fn attrs_refs(s: Seq<AttrV>) -> Seq<Seq<char>>
    decreases s.len(),
{
    if s.len() == 0 {
        Seq::empty()
    } else {
        attrs_refs(s.drop_last()) + attr_refs(s.last())
    }
}

pub open spec fn is_id_attr(a: AttrV) -> bool {
    a.prefix is None && a.name == "id"@
}

pub open spec fn attrs_ids(s: Seq<AttrV>) -> Seq<Seq<char>>
    decreases s.len(),
{
    if s.len() == 0 {
        Seq::empty()
    } else if is_id_attr(s.last()) {
        attrs_ids(s.drop_last()).push(s.last().value)
    } else {
        attrs_ids(s.drop_last())
    }
}

/// The ids that the nodes define, in document order.
pub open spec fn tree_ids(s: Seq<NodeV>) -> Seq<Seq<char>>
    decreases s,
{
    if s.len() == 0 {
        Seq::empty()
    } else {
        tree_ids(s.drop_last()) + match s.last() {
            NodeV::Element(e) => attrs_ids(e.attrs) + tree_ids(e.children),
            _ => Seq::empty(),
        }
    }
}

/// The ids that the nodes reference, in document order.
pub open spec fn tree_refs(s: Seq<NodeV>) -> Seq<Seq<char>>
    decreases s,
{
    if s.len() == 0 {
        Seq::empty()
    } else {
        tree_refs(s.drop_last()) + match s.last() {
            NodeV::Element(e) => attrs_refs(e.attrs) + tree_refs(e.children),
            _ => Seq::empty(),
        }
    }
}

/// The elements that may name ids in ways this pass does not read.
pub open spec fn is_blocker_name(name: Seq<char>) -> bool {
    name == "style"@ || name == "script"@ || name == "foreignObject"@ || name == "animate"@ || name
        == "set"@ || name == "animateMotion"@ || name == "animateTransform"@
}

pub open spec fn has_blocker(s: Seq<NodeV>) -> bool
    decreases s,
{
    if s.len() == 0 {
        false
    } else {
        has_blocker(s.drop_last()) || match s.last() {
            NodeV::Element(e) => is_blocker_name(e.name) || ((e.name == "symbol"@ || e.name
                == "defs"@) && attrs_ids(e.attrs).len() > 0) || has_blocker(e.children),
            _ => false,
        }
    }
}

// ---------------------------------------------------------------------------
// New names.
// ---------------------------------------------------------------------------

/// The defined ids that are referenced, each once, in the order they are defined.
pub open spec fn kept_ids(ids: Seq<Seq<char>>, refs: Seq<Seq<char>>) -> Seq<Seq<char>>
    decreases ids.len(),
{
    if ids.len() == 0 {
        Seq::empty()
    } else {
        let r = kept_ids(ids.drop_last(), refs);
        let x = ids.last();
        if refs.contains(x) && !r.contains(x) {
            r.push(x)
        } else {
            r
        }
    }
}

pub open spec fn alphabet() -> Seq<char> {
    "abcdefghijklmnopqrstuvwxyzABCDEFGHIJKLMNOPQRSTUVWXYZ"@
}

/// The `k`-th short name: `a` to `Z`, then `aa`, `ab`, ...
pub open spec fn short_name(k: nat) -> Seq<char>
    decreases k,
{
    if k < 52 {
        seq![alphabet()[k as int]]
    } else {
        short_name((k / 52 - 1) as nat) + seq![alphabet()[(k % 52) as int]]
    }
}

/// The first place of `x` in `order` from `i` on, or `-1`.
pub open spec fn find(order: Seq<Seq<char>>, x: Seq<char>, i: int) -> int
    decreases order.len() - i,
{
    if i < 0 || i >= order.len() {
        -1
    } else if order[i] == x {
        i
    } else {
        find(order, x, i + 1)
    }
}

/// The name an id gets: its short name where it is kept, else itself.
pub open spec fn renamed(order: Seq<Seq<char>>, x: Seq<char>) -> Seq<char> {
    let k = find(order, x, 0);
    if k >= 0 {
        short_name(k as nat)
    } else {
        x
    }
}

/// The text from `p` on with the ids of its `url(#id)` references renamed.
pub open spec fn rewrite_urls(v: Seq<char>, p: int, order: Seq<Seq<char>>) -> Seq<char>
    decreases v.len() - p,
{
    if p < 0 || p >= v.len() {
        Seq::empty()
    } else {
        match url_id_start(v, p) {
            Some(q) => {
                let e = id_end(v, q);
                if q < e <= v.len() {
                    v.subrange(p, q) + renamed(order, v.subrange(q, e)) + rewrite_urls(v, e, order)
                } else {
                    seq![v[p]] + rewrite_urls(v, p + 1, order)
                }
            },
            None => seq![v[p]] + rewrite_urls(v, p + 1, order),
        }
    }
}

/// What becomes of an attribute: an id that is not kept goes, a kept id is renamed, and the
/// references of other attributes follow the new names.
pub open spec fn ci_attr(a: AttrV, order: Seq<Seq<char>>) -> Option<AttrV> {
    if is_id_attr(a) {
        if order.contains(a.value) {
            Some(AttrV { value: renamed(order, a.value), ..a })
        } else {
            None
        }
    } else {
        match href_ref(a) {
            Some(x) => Some(AttrV { value: seq!['#'] + renamed(order, x), ..a }),
            None => Some(AttrV { value: rewrite_urls(a.value, 0, order), ..a }),
        }
    }
}

pub open spec fn ci_attrs(s: Seq<AttrV>, order: Seq<Seq<char>>) -> (Seq<AttrV>, bool)
    decreases s.len(),
{
    if s.len() == 0 {
        (Seq::empty(), false)
    } else {
        let (r, c) = ci_attrs(s.drop_last(), order);
        match ci_attr(s.last(), order) {
            Some(a) => (r.push(a), c || a != s.last()),
            None => (r, true),
        }
    }
}

pub open spec fn ci_tree(s: Seq<NodeV>, order: Seq<Seq<char>>) -> (Seq<NodeV>, bool)
    decreases s,
{
    if s.len() == 0 {
        (Seq::empty(), false)
    } else {
        let (r, c) = ci_tree(s.drop_last(), order);
        let n = s.last();
        match n {
            NodeV::Element(e) => {
                let (attrs, c1) = ci_attrs(e.attrs, order);
                let (kids, c2) = ci_tree(e.children, order);
                (r.push(NodeV::Element(ElemV { attrs, children: kids, ..e })), c || c1 || c2)
            },
            _ => (r.push(n), c),
        }
    }
}

/// The document with its ids cleaned up, and whether anything changed.
pub open spec fn ci_nodes(d: Seq<NodeV>) -> (Seq<NodeV>, bool) {
    if has_blocker(d) {
        (d, false)
    } else {
        ci_tree(d, kept_ids(tree_ids(d), tree_refs(d)))
    }
}

proof fn lemma_ci_attrs_unchanged(s: Seq<AttrV>, order: Seq<Seq<char>>)
    requires
        !ci_attrs(s, order).1,
    ensures
        ci_attrs(s, order).0 == s,
    decreases s.len(),
{
    if s.len() > 0 {
        lemma_ci_attrs_unchanged(s.drop_last(), order);
        assert(ci_attrs(s, order).0 =~= s);
    }
}

proof fn lemma_ci_tree_unchanged(s: Seq<NodeV>, order: Seq<Seq<char>>)
    requires
        !ci_tree(s, order).1,
    ensures
        ci_tree(s, order).0 == s,
    decreases s,
{
    if s.len() > 0 {
        lemma_ci_tree_unchanged(s.drop_last(), order);
        match s.last() {
            NodeV::Element(e) => {
                lemma_ci_attrs_unchanged(e.attrs, order);
                lemma_ci_tree_unchanged(e.children, order);
            },
            _ => {},
        }
        assert(ci_tree(s, order).0 =~= s);
    }
}

// ---------------------------------------------------------------------------
// Executable forms.
// ---------------------------------------------------------------------------

pub open spec fn texts_view(v: Seq<Vec<char>>) -> Seq<Seq<char>> {
    v.map_values(|x: Vec<char>| x@)
}

fn append_texts(out: &mut Vec<Vec<char>>, more: Vec<Vec<char>>)
    ensures
        texts_view(final(out)@) == texts_view(old(out)@) + texts_view(more@),
{
    let mut more = more;
    let ghost start = texts_view(out@);
    let ghost mv = texts_view(more@);
    out.append(&mut more);
    assert(texts_view(out@) =~= start + mv);
}

fn is_id_char_exec(c: char) -> (b: bool)
    ensures
        b == is_id_char(c),
{
    ('a' <= c && c <= 'z') || ('A' <= c && c <= 'Z') || ('0' <= c && c <= '9') || c == '-' || c
        == '_' || c == '.' || c == ':'
}

fn id_end_exec(v: &Vec<char>, p: usize) -> (e: usize)
    requires
        p <= v@.len(),
    ensures
        e as int == id_end(v@, p as int),
        p <= e <= v@.len(),
{
    let mut k = p;
    while k < v.len() && is_id_char_exec(v[k])
        invariant
            p <= k <= v@.len(),
            id_end(v@, p as int) == id_end(v@, k as int),
        decreases v@.len() - k,
    {
        k += 1;
    }
    k
}

fn url_id_start_exec(v: &Vec<char>, p: usize) -> (r: Option<usize>)
    requires
        p < v@.len(),
    ensures
        match url_id_start(v@, p as int) {
            Some(q) => r == Some(q as usize) && p < q <= v@.len(),
            None => r is None,
        },
{
    if v.len() - p > 4 && v[p] == 'u' && v[p + 1] == 'r' && v[p + 2] == 'l' && v[p + 3] == '(' {
        let q = if v[p + 4] == '\'' || v[p + 4] == '"' {
            p + 5
        } else {
            p + 4
        };
        if q < v.len() && v[q] == '#' {
            Some(q + 1)
        } else {
            None
        }
    } else {
        None
    }
}

fn sub_chars(v: &Vec<char>, a: usize, b: usize) -> (r: Vec<char>)
    requires
        a <= b <= v@.len(),
    ensures
        r@ == v@.subrange(a as int, b as int),
{
    let mut out: Vec<char> = Vec::new();
    let mut k = a;
    while k < b
        invariant
            a <= k <= b <= v@.len(),
            out@ == v@.subrange(a as int, k as int),
        decreases b - k,
    {
        out.push(v[k]);
        assert(v@.subrange(a as int, k + 1) =~= v@.subrange(a as int, k as int).push(v@[k as int]));
        k += 1;
    }
    out
}

fn url_refs_exec(v: &Vec<char>) -> (r: Vec<Vec<char>>)
    ensures
        texts_view(r@) == url_refs(v@, 0),
{
    let mut out: Vec<Vec<char>> = Vec::new();
    let mut p: usize = 0;
    while p < v.len()
        invariant
            0 <= p <= v@.len(),
            texts_view(out@) + url_refs(v@, p as int) == url_refs(v@, 0),
        decreases v@.len() - p,
    {
        match url_id_start_exec(v, p) {
            Some(q) => {
                let e = id_end_exec(v, q);
                if q < e {
                    let x = sub_chars(v, q, e);
                    let ghost before = texts_view(out@);
                    out.push(x);
                    assert(texts_view(out@) =~= before.push(x@));
                    assert(before + url_refs(v@, p as int) =~= texts_view(out@) + url_refs(
                        v@,
                        e as int,
                    ));
                    p = e;
                } else {
                    p += 1;
                }
            },
            None => {
                p += 1;
            },
        }
    }
    assert(url_refs(v@, p as int) =~= Seq::<Seq<char>>::empty());
    assert(texts_view(out@) + Seq::<Seq<char>>::empty() =~= texts_view(out@));
    out
}

fn href_ref_exec(a: &Attribute) -> (r: Option<Vec<char>>)
    ensures
        match href_ref(a@) {
            Some(x) => r is Some && r.unwrap()@ == x,
            None => r is None,
        },
{
    let pre_ok = match &a.prefix {
        None => true,
        Some(q) => is_lit(q, "xlink"),
    };
    if is_lit(&a.name, "href") && pre_ok {
        let v = chars_of(a.value.as_str());
        if v.len() > 1 && v[0] == '#' {
            return Some(sub_chars(&v, 1, v.len()));
        }
    }
    None
}

fn attrs_refs_exec(s: &Vec<Attribute>) -> (r: Vec<Vec<char>>)
    ensures
        texts_view(r@) == attrs_refs(attrs_view(s@)),
{
    let mut out: Vec<Vec<char>> = Vec::new();
    let mut i: usize = 0;
    while i < s.len()
        invariant
            0 <= i <= s@.len(),
            texts_view(out@) == attrs_refs(attrs_view(s@.take(i as int))),
        decreases s@.len() - i,
    {
        proof {
            assert(s@.take(i + 1) =~= s@.take(i as int).push(s@[i as int]));
            lemma_attrs_view_push(s@.take(i as int), s@[i as int]);
            let cur = attrs_view(s@.take(i + 1));
            assert(cur.drop_last() =~= attrs_view(s@.take(i as int)));
            assert(cur.last() == s@[i as int]@);
        }
        let a = &s[i];
        let v = chars_of(a.value.as_str());
        let u = url_refs_exec(&v);
        append_texts(&mut out, u);
        let h = href_ref_exec(a);
        match h {
            Some(x) => {
                let ghost before = texts_view(out@);
                out.push(x);
                assert(texts_view(out@) =~= before + seq![x@]);
            },
            None => {
                assert(texts_view(out@) =~= texts_view(out@) + Seq::<Seq<char>>::empty());
            },
        }
        i += 1;
    }
    proof {
        assert(s@.take(s@.len() as int) =~= s@);
    }
    out
}

fn attrs_ids_exec(s: &Vec<Attribute>) -> (r: Vec<Vec<char>>)
    ensures
        texts_view(r@) == attrs_ids(attrs_view(s@)),
{
    let mut out: Vec<Vec<char>> = Vec::new();
    let mut i: usize = 0;
    while i < s.len()
        invariant
            0 <= i <= s@.len(),
            texts_view(out@) == attrs_ids(attrs_view(s@.take(i as int))),
        decreases s@.len() - i,
    {
        proof {
            assert(s@.take(i + 1) =~= s@.take(i as int).push(s@[i as int]));
            lemma_attrs_view_push(s@.take(i as int), s@[i as int]);
            let cur = attrs_view(s@.take(i + 1));
            assert(cur.drop_last() =~= attrs_view(s@.take(i as int)));
            assert(cur.last() == s@[i as int]@);
        }
        let a = &s[i];
        if a.prefix.is_none() && is_lit(&a.name, "id") {
            let x = chars_of(a.value.as_str());
            let ghost before = texts_view(out@);
            out.push(x);
            assert(texts_view(out@) =~= before.push(x@));
        }
        i += 1;
    }
    proof {
        assert(s@.take(s@.len() as int) =~= s@);
    }
    out
}

/// The ids (`refs` false) or references (`refs` true) of the nodes, in document order.
fn tree_list_exec(v: &Vec<Node>, refs: bool) -> (r: Vec<Vec<char>>)
    ensures
        texts_view(r@) == if refs {
            tree_refs(nodes_view(v@))
        } else {
            tree_ids(nodes_view(v@))
        },
    decreases v,
{
    let mut out: Vec<Vec<char>> = Vec::new();
    let mut i: usize = 0;
    while i < v.len()
        invariant
            0 <= i <= v@.len(),
            texts_view(out@) == if refs {
                tree_refs(nodes_view(v@.take(i as int)))
            } else {
                tree_ids(nodes_view(v@.take(i as int)))
            },
        decreases v@.len() - i,
    {
        proof {
            lemma_take_push(v@, i as int);
        }
        match &v[i] {
            Node::Element(e) => {
                let a = if refs {
                    attrs_refs_exec(&e.attributes)
                } else {
                    attrs_ids_exec(&e.attributes)
                };
                let k = tree_list_exec(&e.children, refs);
                append_texts(&mut out, a);
                append_texts(&mut out, k);
                proof {
                    let pre = nodes_view(v@.take(i as int));
                    assert(nodes_view(v@.take(i + 1)).drop_last() =~= pre);
                }
            },
            _ => {
                proof {
                    let pre = nodes_view(v@.take(i as int));
                    assert(nodes_view(v@.take(i + 1)).drop_last() =~= pre);
                    assert(texts_view(out@) + Seq::<Seq<char>>::empty() =~= texts_view(out@));
                }
            },
        }
        i += 1;
    }
    proof {
        lemma_take_all(v@);
    }
    out
}

fn has_blocker_exec(v: &Vec<Node>) -> (b: bool)
    ensures
        b == has_blocker(nodes_view(v@)),
    decreases v,
{
    let mut found = false;
    let mut i: usize = 0;
    while i < v.len()
        invariant
            0 <= i <= v@.len(),
            found == has_blocker(nodes_view(v@.take(i as int))),
        decreases v@.len() - i,
    {
        proof {
            lemma_take_push(v@, i as int);
        }
        let here = match &v[i] {
            Node::Element(e) => is_lit(&e.name, "style") || is_lit(&e.name, "script") || is_lit(
                &e.name,
                "foreignObject",
            ) || is_lit(&e.name, "animate") || is_lit(&e.name, "set") || is_lit(
                &e.name,
                "animateMotion",
            ) || is_lit(&e.name, "animateTransform") || ((is_lit(&e.name, "symbol") || is_lit(
                &e.name,
                "defs",
            )) && attrs_ids_exec(&e.attributes).len() > 0) || has_blocker_exec(&e.children),
            _ => false,
        };
        found = found || here;
        i += 1;
    }
    proof {
        lemma_take_all(v@);
    }
    found
}

fn contains_text(s: &Vec<Vec<char>>, x: &Vec<char>) -> (b: bool)
    ensures
        b == texts_view(s@).contains(x@),
{
    let ghost sv = texts_view(s@);
    let mut i: usize = 0;
    while i < s.len()
        invariant
            sv == texts_view(s@),
            0 <= i <= s@.len(),
            forall|k: int| 0 <= k < i ==> sv[k] != x@,
        decreases s@.len() - i,
    {
        if chars_eq(&s[i], x) {
            assert(sv[i as int] == x@);
            return true;
        }
        i += 1;
    }
    false
}

fn kept_ids_exec(ids: &Vec<Vec<char>>, refs: &Vec<Vec<char>>) -> (r: Vec<Vec<char>>)
    ensures
        texts_view(r@) == kept_ids(texts_view(ids@), texts_view(refs@)),
{
    let ghost iv = texts_view(ids@);
    let mut out: Vec<Vec<char>> = Vec::new();
    let mut i: usize = 0;
    while i < ids.len()
        invariant
            iv == texts_view(ids@),
            0 <= i <= ids@.len(),
            texts_view(out@) == kept_ids(iv.take(i as int), texts_view(refs@)),
        decreases ids@.len() - i,
    {
        assert(iv.take(i + 1).drop_last() =~= iv.take(i as int));
        assert(iv.take(i + 1).last() == ids@[i as int]@);
        let x = &ids[i];
        if contains_text(refs, x) && !contains_text(&out, x) {
            let c = sub_chars(x, 0, x.len());
            assert(c@ =~= x@);
            let ghost before = texts_view(out@);
            out.push(c);
            assert(texts_view(out@) =~= before.push(x@));
        }
        i += 1;
    }
    assert(iv.take(ids@.len() as int) =~= iv);
    out
}

fn short_name_exec(k: usize) -> (r: Vec<char>)
    ensures
        r@ == short_name(k as nat),
    decreases k,
{
    let letters = chars_of("abcdefghijklmnopqrstuvwxyzABCDEFGHIJKLMNOPQRSTUVWXYZ");
    proof {
        reveal_strlit("abcdefghijklmnopqrstuvwxyzABCDEFGHIJKLMNOPQRSTUVWXYZ");
    }
    assert(letters@.len() == 52);
    if k < 52 {
        let mut out: Vec<char> = Vec::new();
        out.push(letters[k]);
        assert(out@ =~= seq![alphabet()[k as int]]);
        out
    } else {
        let mut out = short_name_exec(k / 52 - 1);
        out.push(letters[k % 52]);
        out
    }
}

fn find_exec(order: &Vec<Vec<char>>, x: &Vec<char>) -> (r: Option<usize>)
    ensures
        match r {
            Some(k) => find(texts_view(order@), x@, 0) == k as int,
            None => find(texts_view(order@), x@, 0) == -1,
        },
{
    let ghost ov = texts_view(order@);
    let mut i: usize = 0;
    while i < order.len()
        invariant
            ov == texts_view(order@),
            0 <= i <= order@.len(),
            find(ov, x@, 0) == find(ov, x@, i as int),
        decreases order@.len() - i,
    {
        if chars_eq(&order[i], x) {
            return Some(i);
        }
        i += 1;
    }
    None
}

fn renamed_exec(order: &Vec<Vec<char>>, x: &Vec<char>) -> (r: Vec<char>)
    ensures
        r@ == renamed(texts_view(order@), x@),
{
    match find_exec(order, x) {
        Some(k) => short_name_exec(k),
        None => sub_chars(x, 0, x.len()),
    }
}

fn rewrite_urls_exec(v: &Vec<char>, order: &Vec<Vec<char>>) -> (r: Vec<char>)
    ensures
        r@ == rewrite_urls(v@, 0, texts_view(order@)),
{
    let ghost ov = texts_view(order@);
    let mut out: Vec<char> = Vec::new();
    let mut p: usize = 0;
    while p < v.len()
        invariant
            ov == texts_view(order@),
            0 <= p <= v@.len(),
            out@ + rewrite_urls(v@, p as int, ov) == rewrite_urls(v@, 0, ov),
        decreases v@.len() - p,
    {
        let ghost before = out@;
        match url_id_start_exec(v, p) {
            Some(q) => {
                let e = id_end_exec(v, q);
                if q < e {
                    let head = sub_chars(v, p, q);
                    let id = sub_chars(v, q, e);
                    let nm = renamed_exec(order, &id);
                    extend_chars(&mut out, &head);
                    extend_chars(&mut out, &nm);
                    assert(before + rewrite_urls(v@, p as int, ov) =~= out@ + rewrite_urls(
                        v@,
                        e as int,
                        ov,
                    ));
                    p = e;
                } else {
                    out.push(v[p]);
                    assert(before + rewrite_urls(v@, p as int, ov) =~= out@ + rewrite_urls(
                        v@,
                        p + 1,
                        ov,
                    ));
                    p += 1;
                }
            },
            None => {
                out.push(v[p]);
                assert(before + rewrite_urls(v@, p as int, ov) =~= out@ + rewrite_urls(
                    v@,
                    p + 1,
                    ov,
                ));
                p += 1;
            },
        }
    }
    assert(out@ + rewrite_urls(v@, p as int, ov) =~= out@);
    out
}

fn ci_attr_exec(a: &Attribute, order: &Vec<Vec<char>>) -> (r: Option<Attribute>)
    ensures
        match ci_attr(a@, texts_view(order@)) {
            Some(b) => r is Some && r.unwrap()@ == b,
            None => r is None,
        },
{
    let v = chars_of(a.value.as_str());
    if a.prefix.is_none() && is_lit(&a.name, "id") {
        if contains_text(order, &v) {
            let nm = renamed_exec(order, &v);
            Some(Attribute { prefix: None, name: a.name.clone(), value: string_from_chars(&nm) })
        } else {
            None
        }
    } else {
        match href_ref_exec(a) {
            Some(x) => {
                let nm = renamed_exec(order, &x);
                let mut w: Vec<char> = Vec::new();
                w.push('#');
                extend_chars(&mut w, &nm);
                Some(
                    Attribute {
                        prefix: clone_opt(&a.prefix),
                        name: a.name.clone(),
                        value: string_from_chars(&w),
                    },
                )
            },
            None => {
                let w = rewrite_urls_exec(&v, order);
                Some(
                    Attribute {
                        prefix: clone_opt(&a.prefix),
                        name: a.name.clone(),
                        value: string_from_chars(&w),
                    },
                )
            },
        }
    }
}

fn ci_attrs_exec(s: &Vec<Attribute>, order: &Vec<Vec<char>>) -> (r: (Vec<Attribute>, bool))
    ensures
        (attrs_view(r.0@), r.1) == ci_attrs(attrs_view(s@), texts_view(order@)),
{
    let mut out: Vec<Attribute> = Vec::new();
    let mut changed = false;
    let mut i: usize = 0;
    while i < s.len()
        invariant
            0 <= i <= s@.len(),
            (attrs_view(out@), changed) == ci_attrs(
                attrs_view(s@.take(i as int)),
                texts_view(order@),
            ),
        decreases s@.len() - i,
    {
        proof {
            assert(s@.take(i + 1) =~= s@.take(i as int).push(s@[i as int]));
            lemma_attrs_view_push(s@.take(i as int), s@[i as int]);
            let cur = attrs_view(s@.take(i + 1));
            assert(cur.drop_last() =~= attrs_view(s@.take(i as int)));
            assert(cur.last() == s@[i as int]@);
        }
        let a = &s[i];
        match ci_attr_exec(a, order) {
            Some(b) => {
                let same = chars_eq(&chars_of(b.value.as_str()), &chars_of(a.value.as_str()));
                proof {
                    lemma_attrs_view_push(out@, b);
                }
                out.push(b);
                changed = changed || !same;
            },
            None => {
                changed = true;
            },
        }
        i += 1;
    }
    proof {
        assert(s@.take(s@.len() as int) =~= s@);
    }
    (out, changed)
}

fn ci_tree_exec(v: &Vec<Node>, order: &Vec<Vec<char>>) -> (r: (Vec<Node>, bool))
    ensures
        (nodes_view(r.0@), r.1) == ci_tree(nodes_view(v@), texts_view(order@)),
    decreases v,
{
    let mut out: Vec<Node> = Vec::new();
    let mut changed = false;
    let mut i: usize = 0;
    while i < v.len()
        invariant
            0 <= i <= v@.len(),
            (nodes_view(out@), changed) == ci_tree(nodes_view(v@.take(i as int)), texts_view(order@)),
        decreases v@.len() - i,
    {
        proof {
            lemma_take_push(v@, i as int);
        }
        match &v[i] {
            Node::Element(e) => {
                let (attributes, c1) = ci_attrs_exec(&e.attributes, order);
                let (children, c2) = ci_tree_exec(&e.children, order);
                let n = Node::Element(
                    Element { prefix: clone_opt(&e.prefix), name: e.name.clone(), attributes, children },
                );
                proof {
                    lemma_nodes_view_push(out@, n);
                }
                out.push(n);
                changed = changed || c1 || c2;
            },
            other => {
                let n = clone_node(other);
                proof {
                    lemma_nodes_view_push(out@, n);
                }
                out.push(n);
            },
        }
        i += 1;
    }
    proof {
        lemma_take_all(v@);
    }
    (out, changed)
}

impl Pass for CleanupIds {
    open spec fn apply(&self, d: Seq<NodeV>) -> Seq<NodeV> {
        ci_nodes(d).0
    }

    open spec fn reports_change(&self, d: Seq<NodeV>) -> bool {
        ci_nodes(d).1
    }

    open spec fn pass_name(&self) -> Seq<char> {
        "cleanupIds"@
    }

    fn name(&self) -> (r: &'static str) {
        "cleanupIds"
    }

    fn run(&self, doc: &mut Document) -> (r: PassResult) {
        if has_blocker_exec(&doc.children) {
            return PassResult::Unchanged;
        }
        let ids = tree_list_exec(&doc.children, false);
        let refs = tree_list_exec(&doc.children, true);
        let order = kept_ids_exec(&ids, &refs);
        let (children, changed) = ci_tree_exec(&doc.children, &order);
        doc.children = children;
        result_from(changed)
    }

    proof fn lemma_unchanged(&self, d: Seq<NodeV>) {
        if !has_blocker(d) {
            lemma_ci_tree_unchanged(d, kept_ids(tree_ids(d), tree_refs(d)));
        }
    }
}

} // verus!

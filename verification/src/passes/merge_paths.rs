use vstd::prelude::*;

use super::{result_from, Pass, PassResult};
use crate::ast::{is_foreign_exec, is_foreign_name, attrs_view, clone_attr, clone_attrs, clone_node, clone_opt, lemma_attrs_view, lemma_attrs_view_push, lemma_nodes_view_len, lemma_nodes_view_push, lemma_take_all, lemma_take_push, node_view, nodes_view, AttrV, Attribute, Document, ElemV, Element, Node, NodeV};
use crate::path::grammar::{
    PCmd, cmds_view, is_sep, is_sep_exec, is_arc, is_command, is_command_exec, lemma_scan_progress, lemma_skip_ge, scan_number, skip_sep, skip_sep_exec, scan_number_exec,
    wf_cmd, wf_cmds, NumRead, NumScan,
};
use crate::path::normalize::{
    norm_step, normalize, normalize_from, normalize_to_absolute, nstate_init, NState,
};
use crate::path::number::{in_bound, BOUND};
use crate::path::ahead::{
    agree_from, holds_at, leads_command, lemma_groups_agree, lemma_joint, lemma_outer_agree,
    lemma_outer_pre, lemma_outer_same_command, lemma_outer_shift, lemma_skip_agree, lemma_skip_shift,
};
use crate::path::parse::{
    cons_cmd, cons_opt, parse_path_chars, pp_args, pp_groups, pp_outer, sp_parse_path, ArgsScan, GroupsScan,
};
use crate::text::{chars_of, extend_chars, is_lit, str_eq, string_from_chars};

verus! {

broadcast use vstd::std_specs::vec::group_vec_axioms;

/// Merges adjacent `<path>` siblings with identical attributes into one path.
pub struct MergePaths;

// ---------------------------------------------------------------------------
// Which nodes take part.
// ---------------------------------------------------------------------------

/// The characters that `char::is_whitespace` (and so `str::trim`) treats as white space.
pub open spec fn is_unicode_ws(c: char) -> bool {
    ||| c == ' ' || c == '\t' || c == '\n' || c == '\x0B' || c == '\x0C' || c == '\r'
    ||| c == '\u{85}' || c == '\u{A0}' || c == '\u{1680}'
    ||| ('\u{2000}' <= c && c <= '\u{200A}')
    ||| c == '\u{2028}' || c == '\u{2029}' || c == '\u{202F}' || c == '\u{205F}' || c == '\u{3000}'
}

/// Whether every character is white space.
pub open spec fn all_ws(t: Seq<char>) -> bool {
    forall|i: int| 0 <= i < t.len() ==> is_unicode_ws(#[trigger] t[i])
}

/// A text node that holds nothing but white space.
pub open spec fn is_ws_text(n: NodeV) -> bool {
    match n {
        NodeV::Text(t) => all_ws(t),
        _ => false,
    }
}

/// Position of the first unprefixed `d` attribute at or after `i`.
pub open spec fn d_index_from(attrs: Seq<AttrV>, i: int) -> Option<int>
    decreases attrs.len() - i,
{
    if i < 0 || i >= attrs.len() {
        None
    } else if attrs[i].name == "d"@ && attrs[i].prefix is None {
        Some(i)
    } else {
        d_index_from(attrs, i + 1)
    }
}

pub open spec fn d_index(attrs: Seq<AttrV>) -> Option<int> {
    d_index_from(attrs, 0)
}

/// Attributes that block merging — they have semantics that change when paths
/// are concatenated into a compound path.
pub open spec fn is_blocking(name: Seq<char>) -> bool {
    ||| name == "id"@
    ||| name == "marker-start"@
    ||| name == "marker-mid"@
    ||| name == "marker-end"@
    ||| name == "fill-rule"@
    ||| name == "clip-rule"@
    ||| name == "clip-path"@
    ||| name == "mask"@
    ||| name == "mask-image"@
}

/// Attributes that, on an ancestor, block merging the paths below it.
pub open spec fn is_inherited_blocker(name: Seq<char>) -> bool {
    ||| name == "marker-start"@
    ||| name == "marker-mid"@
    ||| name == "marker-end"@
    ||| name == "clip-path"@
    ||| name == "mask"@
    ||| name == "mask-image"@
}

/// Whether some attribute without prefix is an inherited blocker.
pub open spec fn blocks_below(attrs: Seq<AttrV>) -> bool {
    exists|i: int|
        0 <= i < attrs.len() && (#[trigger] attrs[i]).prefix is None && is_inherited_blocker(
            attrs[i].name,
        )
}

/// Whether `v` holds `url(` somewhere.
pub open spec fn has_url(v: Seq<char>) -> bool {
    exists|k: int| 0 <= k && k + 4 <= v.len() && #[trigger] v.subrange(k, k + 4) == "url("@
}

/// A `fill`, `stroke` or `filter` that refers to a paint server or filter, whose extent
/// follows the bounding box of the path.
pub open spec fn url_ref(a: AttrV) -> bool {
    &&& a.prefix is None
    &&& a.name == "fill"@ || a.name == "stroke"@ || a.name == "filter"@
    &&& has_url(a.value)
}

pub open spec fn is_animation(name: Seq<char>) -> bool {
    name == "animate"@ || name == "animateTransform"@ || name == "animateMotion"@ || name
        == "set"@
}

/// A `<path>` with a `d`, no blocking attribute, no paint or filter by reference, and no
/// animation child.
pub open spec fn mergeable(n: NodeV) -> bool {
    match n {
        NodeV::Element(e) => {
            &&& e.name == "path"@
            &&& d_index(e.attrs) is Some
            &&& forall|i: int|
                0 <= i < e.attrs.len() ==> !((#[trigger] e.attrs[i]).prefix is None && is_blocking(
                    e.attrs[i].name,
                )) && !url_ref(e.attrs[i])
            &&& forall|i: int|
                0 <= i < e.children.len() ==> !((#[trigger] e.children[i]) is Element && is_animation(
                    e.children[i]->Element_0.name,
                ))
        },
        _ => false,
    }
}

/// The attributes other than the unprefixed `d`.
pub open spec fn non_d(attrs: Seq<AttrV>) -> Seq<AttrV>
    decreases attrs.len(),
{
    if attrs.len() == 0 {
        Seq::empty()
    } else if attrs.last().name == "d"@ && attrs.last().prefix is None {
        non_d(attrs.drop_last())
    } else {
        non_d(attrs.drop_last()).push(attrs.last())
    }
}

/// Whether `x` occurs in `s`.
pub open spec fn occurs_in(x: AttrV, s: Seq<AttrV>) -> bool {
    exists|j: int| 0 <= j < s.len() && s[j] == x
}

/// Both are elements whose attributes other than `d` are the same, in any order
/// (as many of them, and each one of the first found in the second).
pub open spec fn attrs_match(a: NodeV, b: NodeV) -> bool {
    match (a, b) {
        (NodeV::Element(ea), NodeV::Element(eb)) => {
            let na = non_d(ea.attrs);
            let nb = non_d(eb.attrs);
            &&& na.len() == nb.len()
            &&& forall|i: int| 0 <= i < na.len() ==> occurs_in(#[trigger] na[i], nb)
        },
        _ => false,
    }
}

// ---------------------------------------------------------------------------
// One sweep over a list of siblings.
// ---------------------------------------------------------------------------

/// Path data whose first move is absolute, ready to follow other path data: the data as
/// it is where it starts with `M` and two numbers; where it starts with `m`, two numbers and
/// then a command or the end, the same data with that `m` written `M` (the first move of
/// path data is absolute whatever its letter). `None` otherwise: the data does not start
/// with a move and its point, or number pairs follow a relative move (which would read as
/// absolute lines after an `M`).
pub open spec fn absolute_lead(t: Seq<char>) -> Option<Seq<char>> {
    let i = skip_sep(t, 0);
    if !(0 <= i < t.len() && (t[i] == 'M' || t[i] == 'm')) {
        None
    } else {
        match scan_number(t, i + 1) {
            NumScan::Num(_, e1) => match scan_number(t, e1) {
                NumScan::Num(_, e2) => if t[i] == 'M' {
                    Some(t)
                } else {
                    let j = skip_sep(t, e2);
                    if j >= t.len() || is_command(t[j]) {
                        Some(t.update(i, 'M'))
                    } else {
                        None
                    }
                },
                _ => None,
            },
            _ => None,
        }
    }
}

/// Where `skip_sep(s, p)` stops inside `s`, it stops at the same place in a text that agrees
/// with `s` before that place and has no separator there.
proof fn lemma_skip_prefix(s: Seq<char>, t: Seq<char>, p: int)
    requires
        s.len() == t.len(),
        0 <= p,
        skip_sep(s, p) < s.len(),
        forall|k: int| p <= k < skip_sep(s, p) ==> s[k] == t[k],
        !is_sep(t[skip_sep(s, p)]),
    ensures
        skip_sep(t, p) == skip_sep(s, p),
    decreases s.len() - p,
{
    lemma_skip_ge(s, p);
    if 0 <= p < s.len() && is_sep(s[p]) {
        assert(skip_sep(s, p) == skip_sep(s, p + 1));
        assert(p < skip_sep(s, p)) by {
            lemma_skip_ge(s, p + 1);
        }
        assert(t[p] == s[p]);
        lemma_skip_prefix(s, t, p + 1);
    } else {
        assert(skip_sep(s, p) == p);
        assert(!is_sep(t[p]));
    }
}

proof fn lemma_scan_at_skip(s: Seq<char>, p: int)
    requires
        0 <= p,
    ensures
        scan_number(s, skip_sep(s, p)) == scan_number(s, p),
{
    lemma_skip_ge(s, p);
}

proof fn lemma_args_letters(s: Seq<char>, p: int, c1: char, c2: char, i: int, n: int)
    requires
        is_arc(c1) == is_arc(c2),
    ensures
        pp_args(s, p, c1, i, n) == pp_args(s, p, c2, i, n),
    decreases n - i,
{
    if i < n {
        let q = skip_sep(s, p);
        lemma_args_letters(s, q + 1, c1, c2, i + 1, n);
        match scan_number(s, q) {
            NumScan::Num(v, e) => {
                lemma_args_letters(s, e, c1, c2, i + 1, n);
            },
            _ => {},
        }
    }
}

/// Writing a leading relative move as absolute, as `absolute_lead` does, keeps the drawing:
/// the rewritten data reads, and made absolute its commands are those of the original.
pub proof fn lemma_absolute_lead_draws_same(t: Seq<char>)
    requires
        absolute_lead(t) is Some,
        sp_parse_path(t) is Some,
    ensures
        sp_parse_path(absolute_lead(t).unwrap()) is Some,
        normalize(sp_parse_path(absolute_lead(t).unwrap()).unwrap()) == normalize(
            sp_parse_path(t).unwrap(),
        ),
        sp_parse_path(absolute_lead(t).unwrap()).unwrap().len() > 0,
        sp_parse_path(absolute_lead(t).unwrap()).unwrap()[0].letter == 'M',
        leads_command(absolute_lead(t).unwrap()),
{
    let i = skip_sep(t, 0);
    lemma_skip_ge(t, 0);
    if t[i] == 'M' {
        lemma_scan_progress(t, i + 1);
        lemma_skip_ge(t, i + 1);
        let q2 = skip_sep(t, i + 1);
        let x = scan_number(t, i + 1)->Num_0;
        let e1 = scan_number(t, i + 1)->Num_1;
        lemma_scan_progress(t, e1);
        lemma_skip_ge(t, e1);
        let y = scan_number(t, e1)->Num_0;
        let e2 = scan_number(t, e1)->Num_1;
        lemma_scan_at_skip(t, i + 1);
        lemma_scan_at_skip(t, e1);
        assert(!is_command(t[q2]));
        assert(pp_args(t, e1, 'M', 1, 2) == ArgsScan::Done(seq![y], e2)) by {
            assert(pp_args(t, e2, 'M', 2, 2) == ArgsScan::Done(seq![], e2));
            assert(seq![y] + Seq::<int>::empty() =~= seq![y]);
        }
        assert(pp_args(t, q2, 'M', 0, 2) == ArgsScan::Done(seq![x, y], e2)) by {
            assert(seq![x] + seq![y] =~= seq![x, y]);
        }
        let am = PCmd { letter: 'M', args: seq![x, y] };
        assert(pp_groups(t, q2, 'M') == cons_cmd(am, pp_groups(t, e2, 'L')));
        crate::path::parse::lemma_groups_bound(t, e2, 'L');
        match pp_groups(t, e2, 'L') {
            GroupsScan::Done(cs2, e, cl) => {
                assert(sp_parse_path(t) == cons_opt(seq![am] + cs2, pp_outer(t, e, Some(cl))));
                assert((seq![am] + cs2 + pp_outer(t, e, Some(cl)).unwrap())[0] == am);
            },
            GroupsScan::Fail => {
                assert(sp_parse_path(t) is None);
            },
        }
    } else {
        let u = t.update(i, 'M');
        lemma_scan_progress(t, i + 1);
        lemma_skip_ge(t, i + 1);
        let q2 = skip_sep(t, i + 1);
        let x = scan_number(t, i + 1)->Num_0;
        let e1 = scan_number(t, i + 1)->Num_1;
        lemma_scan_progress(t, e1);
        lemma_skip_ge(t, e1);
        let y = scan_number(t, e1)->Num_0;
        let e2 = scan_number(t, e1)->Num_1;
        lemma_skip_ge(t, e2);
        let j = skip_sep(t, e2);
        assert(j >= t.len() || is_command(t[j]));
        // where the move and its letter are read
        lemma_skip_prefix(t, u, 0);
        assert(agree_from(t, u, i + 1));
        lemma_skip_agree(t, u, i + 1);
        // its two numbers
        lemma_scan_at_skip(t, i + 1);
        lemma_scan_at_skip(t, e1);
        assert(!is_command(t[q2]));
        lemma_args_letters(t, q2, 'm', 'M', 0, 2);
        assert(pp_args(t, e1, 'm', 1, 2) == ArgsScan::Done(seq![y], e2)) by {
            assert(pp_args(t, e2, 'm', 2, 2) == ArgsScan::Done(seq![], e2));
            assert(seq![y] + Seq::<int>::empty() =~= seq![y]);
        }
        assert(pp_args(t, q2, 'm', 0, 2) == ArgsScan::Done(seq![x, y], e2)) by {
            assert(seq![x] + seq![y] =~= seq![x, y]);
        }
        assert(pp_args(t, q2, 'M', 0, 2) == ArgsScan::Done(seq![x, y], e2));
        // what follows the move is a command or the end
        assert(pp_groups(t, e2, 'l') == GroupsScan::Done(seq![], j, 'l'));
        assert(pp_groups(t, e2, 'L') == GroupsScan::Done(seq![], j, 'L'));
        let mv = PCmd { letter: 'm', args: seq![x, y] };
        let am = PCmd { letter: 'M', args: seq![x, y] };
        assert(pp_groups(t, q2, 'm') == GroupsScan::Done(seq![mv], j, 'l')) by {
            assert(seq![mv] + Seq::<PCmd>::empty() =~= seq![mv]);
        }
        assert(pp_groups(t, q2, 'M') == GroupsScan::Done(seq![am], j, 'L')) by {
            assert(seq![am] + Seq::<PCmd>::empty() =~= seq![am]);
        }
        lemma_groups_agree(t, u, q2, 'M');
        // the rest reads alike
        assert(agree_from(t, u, j));
        lemma_outer_agree(t, u, j, Some('L'));
        assert(pp_outer(t, j, Some('L')) == pp_outer(t, j, Some('l')));
        let rest = pp_outer(t, j, Some('l'));
        assert(sp_parse_path(t) == cons_opt(seq![mv], rest));
        assert(sp_parse_path(u) == cons_opt(seq![am], rest));
        let r = rest.unwrap();
        assert((seq![mv] + r).drop_first() =~= r);
        assert((seq![am] + r).drop_first() =~= r);
        assert(seq![0 + x, 0 + y] =~= seq![x, y]);
        assert(u[i] == 'M');
    }
}

/// Made absolute, commands followed by others that start with an absolute move give the
/// first commands made absolute followed by the others made absolute on their own.
pub proof fn lemma_normalize_join(st: NState, x: Seq<PCmd>, y: Seq<PCmd>)
    requires
        normalize_from(st, x) is Some,
        y.len() > 0,
        y[0].letter == 'M',
    ensures
        normalize_from(st, x + y) == cons_opt(normalize_from(st, x).unwrap(), normalize(y)),
    decreases x.len(),
{
    if x.len() == 0 {
        assert(x + y =~= y);
        assert(Seq::<PCmd>::empty() + normalize(y).unwrap_or(Seq::empty()) =~= normalize(y).unwrap_or(
            Seq::empty(),
        ));
        assert(norm_step(st, y[0]) == norm_step(nstate_init(), y[0]));
    } else {
        let (st2, o) = norm_step(st, x[0]);
        assert((x + y)[0] == x[0]);
        assert((x + y).drop_first() =~= x.drop_first() + y);
        lemma_normalize_join(st2, x.drop_first(), y);
        let r = normalize_from(st2, x.drop_first()).unwrap();
        if normalize(y) is Some {
            assert(seq![o] + (r + normalize(y).unwrap()) =~= (seq![o] + r) + normalize(y).unwrap());
        }
    }
}

/// Reading path data followed by more that starts (after separators) with a command gives
/// the commands of the first, then those of the second.
pub proof fn lemma_read_join(a: Seq<char>, w: Seq<char>)
    requires
        leads_command(w),
        sp_parse_path(a) is Some,
    ensures
        sp_parse_path(a + w) == cons_opt(sp_parse_path(a).unwrap(), sp_parse_path(w)),
{
    lemma_outer_pre(a, w, 0, None);
    lemma_joint(a, w);
    lemma_outer_shift(w, a + w, 0, None, a.len() as int);
}

/// A space before path data that starts with a command reads as nothing.
proof fn lemma_read_after_space(b: Seq<char>)
    requires
        leads_command(b),
    ensures
        leads_command(seq![' '] + b),
        sp_parse_path(seq![' '] + b) == sp_parse_path(b),
{
    let w = seq![' '] + b;
    assert(holds_at(b, w, 0, 1)) by {
        assert forall|k: int| 0 <= k < b.len() implies w[k + 1] == b[k] by {}
    }
    lemma_skip_shift(b, w, 0, 1);
    lemma_skip_ge(b, 0);
    assert(is_sep(w[0]));
    assert(skip_sep(w, 0) == skip_sep(w, 1));
    assert(w[skip_sep(w, 0)] == b[skip_sep(b, 0)]);
    lemma_outer_shift(b, w, 0, None, 1);
    lemma_outer_same_command(w, 0, 1, None, None);
}

/// Joining path data keeps what each part draws: where both parts read, and made absolute,
/// the second part brought by `joined_data`'s rewrite, the joined data of a merge reads, and
/// made absolute its commands are those of the first part followed by those of the second.
pub proof fn lemma_join_draws_both(a: Seq<char>, b: Seq<char>)
    requires
        sp_parse_path(a) is Some,
        normalize(sp_parse_path(a).unwrap()) is Some,
        absolute_lead(b) is Some,
        sp_parse_path(b) is Some,
        normalize(sp_parse_path(b).unwrap()) is Some,
    ensures
        sp_parse_path(with_separator(a) + absolute_lead(b).unwrap()) matches Some(c) && normalize(c)
            == Some(normalize(sp_parse_path(a).unwrap()).unwrap() + normalize(
            sp_parse_path(b).unwrap(),
        ).unwrap()),
{
    let b2 = absolute_lead(b).unwrap();
    lemma_absolute_lead_draws_same(b);
    let cb = sp_parse_path(b2).unwrap();
    let ca = sp_parse_path(a).unwrap();
    if with_separator(a) == a.push(' ') {
        lemma_read_after_space(b2);
        let w = seq![' '] + b2;
        assert(a.push(' ') + b2 =~= a + w);
        lemma_read_join(a, w);
    } else {
        lemma_read_join(a, b2);
    }
    assert(sp_parse_path(with_separator(a) + b2) == Some(ca + cb));
    lemma_normalize_join(nstate_init(), ca, cb);
}

/// The data that a path brings when it joins after another: its own data, its leading
/// relative move made absolute.
pub open spec fn joined_data(n: NodeV) -> Seq<char> {
    match absolute_lead(d_value(n)) {
        Some(u) => u,
        None => d_value(n),
    }
}

/// A box `(min x, min y, max x, max y)`.
pub type PBox = (int, int, int, int);

pub open spec fn lo(a: int, b: int) -> int {
    if a <= b {
        a
    } else {
        b
    }
}

pub open spec fn hi(a: int, b: int) -> int {
    if a >= b {
        a
    } else {
        b
    }
}

/// The box `acc` grown to hold the point `(x, y)`.
pub open spec fn grow(acc: Option<PBox>, x: int, y: int) -> Option<PBox> {
    match acc {
        None => Some((x, y, x, y)),
        Some(b) => Some((lo(b.0, x), lo(b.1, y), hi(b.2, x), hi(b.3, y))),
    }
}

/// The box `acc` grown to hold the points `(args[k], args[k + 1])`, `(args[k + 2], ..)`, ...
pub open spec fn box_pts(args: Seq<int>, k: int, acc: Option<PBox>) -> Option<PBox>
    decreases args.len() - k,
{
    if k < 0 || k + 1 >= args.len() {
        acc
    } else {
        box_pts(args, k + 2, grow(acc, args[k], args[k + 1]))
    }
}

/// The box `acc` grown to hold every point of the commands from the `i`-th on.
pub open spec fn box_cmds(cmds: Seq<PCmd>, i: int, acc: Option<PBox>) -> Option<PBox>
    decreases cmds.len() - i,
{
    if i < 0 || i >= cmds.len() {
        acc
    } else {
        box_cmds(cmds, i + 1, box_pts(cmds[i].args, 0, acc))
    }
}

pub open spec fn has_arc(cmds: Seq<PCmd>) -> bool {
    exists|i: int| 0 <= i < cmds.len() && (#[trigger] cmds[i]).letter == 'A'
}

/// A box that holds what a path draws: that of its end and control points (a curve lies
/// within the hull of its points). `None` where the data does not read, holds an arc (which
/// may bulge past its points) or holds no point.
pub open spec fn path_box(n: NodeV) -> Option<PBox> {
    match sp_parse_path(d_value(n)) {
        Some(c) => match normalize(c) {
            Some(a) => if has_arc(a) {
                None
            } else {
                box_cmds(a, 0, None)
            },
            None => None,
        },
        None => None,
    }
}

/// Two boxes that share no point.
pub open spec fn apart(a: PBox, b: PBox) -> bool {
    a.2 < b.0 || b.2 < a.0 || a.3 < b.1 || b.3 < a.1
}

pub open spec fn union_box(a: PBox, b: PBox) -> PBox {
    (lo(a.0, b.0), lo(a.1, b.1), hi(a.2, b.2), hi(a.3, b.3))
}

/// A point.
pub type Pt = (int, int);

/// The points `(args[k], args[k + 1])`, `(args[k + 2], ..)`, ... added after `acc`.
pub open spec fn pts_args(args: Seq<int>, k: int, acc: Seq<Pt>) -> Seq<Pt>
    decreases args.len() - k,
{
    if k < 0 || k + 1 >= args.len() {
        acc
    } else {
        pts_args(args, k + 2, acc.push((args[k], args[k + 1])))
    }
}

/// The points of the commands from the `i`-th on, added after `acc`.
pub open spec fn pts_cmds(cmds: Seq<PCmd>, i: int, acc: Seq<Pt>) -> Seq<Pt>
    decreases cmds.len() - i,
{
    if i < 0 || i >= cmds.len() {
        acc
    } else {
        pts_cmds(cmds, i + 1, pts_args(cmds[i].args, 0, acc))
    }
}

/// The end and control points of a path, in absolute coordinates; none where its data does
/// not read or holds an arc. What a path draws lies within the hull of these points.
pub open spec fn path_pts(n: NodeV) -> Seq<Pt> {
    match sp_parse_path(d_value(n)) {
        Some(c) => match normalize(c) {
            Some(a) => if has_arc(a) {
                Seq::empty()
            } else {
                pts_cmds(a, 0, Seq::empty())
            },
            None => Seq::empty(),
        },
        None => Seq::empty(),
    }
}

/// Twice the signed area of the triangle `o`, `a`, `b`: positive where `b` lies to the
/// left of the line from `o` through `a`.
pub open spec fn cross(o: Pt, a: Pt, b: Pt) -> int {
    (a.0 - o.0) * (b.1 - o.1) - (a.1 - o.1) * (b.0 - o.0)
}

/// Whether `c`, a value of `cross`, lies on the side `m` of a line: 0 on the right or on
/// it, 1 strictly left, 2 on the left or on it, 3 strictly right.
pub open spec fn side_ok(m: u8, c: int) -> bool {
    if m == 0 {
        c <= 0
    } else if m == 1 {
        c > 0
    } else if m == 2 {
        c >= 0
    } else {
        c < 0
    }
}

/// Whether every point of `pts` lies on the side `m` of the line from `o` through `q`.
pub open spec fn all_side(o: Pt, q: Pt, pts: Seq<Pt>, m: u8) -> bool {
    forall|k: int| 0 <= k < pts.len() ==> side_ok(m, cross(o, q, #[trigger] pts[k]))
}

/// Whether the line through `a[i]` and `a[j]` has every point of `a` on one side or on it,
/// and every point of `b` strictly on the other side.
pub open spec fn splits(a: Seq<Pt>, b: Seq<Pt>, i: int, j: int) -> bool {
    &&& a[i] != a[j]
    &&& (all_side(a[i], a[j], a, 0) && all_side(a[i], a[j], b, 1)) || (all_side(a[i], a[j], a, 2)
        && all_side(a[i], a[j], b, 3))
}

/// Most points on either side that the separating-line test looks at; past it the test
/// is not run and the paths count as overlapping.
pub const HULL_CAP: usize = 64;

/// Whether a line through two points of one set separates it from the other: then the
/// hulls of the two sets, and so what the paths draw, share no point.
pub open spec fn hulls_apart(a: Seq<Pt>, b: Seq<Pt>) -> bool {
    &&& a.len() <= HULL_CAP && b.len() <= HULL_CAP
    &&& (exists|i: int, j: int| 0 <= i < a.len() && 0 <= j < a.len() && #[trigger] splits(a, b, i, j))
        || (exists|i: int, j: int|
        0 <= i < b.len() && 0 <= j < b.len() && #[trigger] splits(b, a, i, j))
}

/// What a run keeps of its paths so far: the box that holds them and their points.
pub type RunAcc = (Option<PBox>, Seq<Pt>);

pub open spec fn run_start(n: NodeV) -> RunAcc {
    (path_box(n), path_pts(n))
}

/// Whether the path `n` can join a run that starts at the path `first`, the paths of the
/// run so far being held by `acc`: it is mergeable, has the same other attributes, its data
/// can follow other data (a leading move holds its two numbers), and it overlaps no path of
/// the run: the boxes are apart, or a line separates its points from those of the run.
pub open spec fn joins(first: NodeV, n: NodeV, acc: RunAcc) -> bool {
    &&& mergeable(n)
    &&& attrs_match(first, n)
    &&& absolute_lead(d_value(n)) is Some
    &&& acc.0 is Some
    &&& path_box(n) is Some
    &&& (apart(acc.0.unwrap(), path_box(n).unwrap()) || hulls_apart(acc.1, path_pts(n)))
}

pub open spec fn grow_run(acc: RunAcc, n: NodeV) -> RunAcc {
    (
        match (acc.0, path_box(n)) {
            (Some(a), Some(b)) => Some(union_box(a, b)),
            _ => None,
        },
        acc.1 + path_pts(n),
    )
}

/// End of the run that starts at the mergeable path `s[start]`, its paths so far being held
/// by `acc`: white-space text and paths that can join extend it.
pub open spec fn run_end(s: Seq<NodeV>, start: int, j: int, acc: RunAcc) -> int
    decreases s.len() - j,
{
    if j < 0 || j >= s.len() {
        j
    } else if is_ws_text(s[j]) {
        run_end(s, start, j + 1, acc)
    } else if joins(s[start], s[j], acc) {
        run_end(s, start, j + 1, grow_run(acc, s[j]))
    } else {
        j
    }
}

/// How many of `s[i..k]` are mergeable paths.
pub open spec fn path_count(s: Seq<NodeV>, i: int, k: int) -> nat
    decreases k - i,
{
    if k <= i {
        0
    } else if mergeable(s[k - 1]) {
        path_count(s, i, k - 1) + 1
    } else {
        path_count(s, i, k - 1)
    }
}

/// The `d` value of a path.
pub open spec fn d_value(n: NodeV) -> Seq<char> {
    match n {
        NodeV::Element(e) => match d_index(e.attrs) {
            Some(k) => e.attrs[k].value,
            None => Seq::empty(),
        },
        _ => Seq::empty(),
    }
}

/// A space goes between two path data strings unless the first is empty or
/// already ends with a space or a close-path command.
pub open spec fn with_separator(c: Seq<char>) -> Seq<char> {
    if c.len() > 0 && c.last() != ' ' && c.last() != 'z' && c.last() != 'Z' {
        c.push(' ')
    } else {
        c
    }
}

/// The `d` values of the paths in `s[i..k]` joined, `s[i]` being the first path; each later
/// path brings its data with a leading relative move made absolute.
pub open spec fn combine(s: Seq<NodeV>, i: int, k: int) -> Seq<char>
    decreases k - i,
{
    if k <= i {
        Seq::empty()
    } else if !mergeable(s[k - 1]) {
        combine(s, i, k - 1)
    } else if k - 1 == i {
        d_value(s[i])
    } else {
        with_separator(combine(s, i, k - 1)) + joined_data(s[k - 1])
    }
}

/// The path with the value of its first unprefixed `d` replaced.
pub open spec fn with_d(n: NodeV, d: Seq<char>) -> NodeV {
    match n {
        NodeV::Element(e) => match d_index(e.attrs) {
            Some(k) => NodeV::Element(
                ElemV { attrs: e.attrs.update(k, AttrV { value: d, ..e.attrs[k] }), ..e },
            ),
            None => n,
        },
        _ => n,
    }
}

/// The siblings from `i` on after one sweep, and whether any run was merged.
/// A run of two or more paths becomes its first path carrying all the path data;
/// the other paths and the white space of the run go.
pub open spec fn sweep(s: Seq<NodeV>, i: int) -> (Seq<NodeV>, bool)
    decreases s.len() - i,
{
    if i < 0 || i >= s.len() {
        (Seq::empty(), false)
    } else if !mergeable(s[i]) {
        let (r, c) = sweep(s, i + 1);
        (seq![s[i]] + r, c)
    } else {
        let e = run_end(s, i, i + 1, run_start(s[i]));
        if e <= i || e > s.len() {
            (Seq::empty(), false)
        } else {
            let (r, c) = sweep(s, e);
            if path_count(s, i, e) >= 2 {
                (seq![with_d(s[i], combine(s, i, e))] + r, true)
            } else {
                (s.subrange(i, e) + r, c)
            }
        }
    }
}

/// Sweeps until a sweep merges nothing (each merging sweep removes nodes).
pub open spec fn merge_level(s: Seq<NodeV>) -> (Seq<NodeV>, bool)
    decreases s.len(),
{
    let (t, c) = sweep(s, 0);
    if c && t.len() < s.len() {
        (merge_level(t).0, true)
    } else {
        (t, c)
    }
}

/// Paths are merged in every child list, inner lists first; `blocked` where an ancestor
/// carries markers, a clip path or a mask, under which nothing merges.
pub open spec fn mp_node(n: NodeV, blocked: bool) -> (NodeV, bool)
    decreases n, 0int,
{
    match n {
        NodeV::Element(e) => {
            let (kids, c) = if is_foreign_name(e.name) {
                (e.children, false)
            } else {
                mp_nodes(e.children, blocked || blocks_below(e.attrs))
            };
            (NodeV::Element(ElemV { children: kids, ..e }), c)
        },
        _ => (n, false),
    }
}

pub open spec fn mp_each(s: Seq<NodeV>, blocked: bool) -> (Seq<NodeV>, bool)
    decreases s, 0int,
{
    if s.len() == 0 {
        (Seq::empty(), false)
    } else {
        let (r, c) = mp_each(s.drop_last(), blocked);
        let (n, c2) = mp_node(s.last(), blocked);
        (r.push(n), c || c2)
    }
}

pub open spec fn mp_nodes(s: Seq<NodeV>, blocked: bool) -> (Seq<NodeV>, bool)
    decreases s, 1int,
{
    let (t, c1) = mp_each(s, blocked);
    if blocked {
        (t, c1)
    } else {
        let (u, c2) = merge_level(t);
        (u, c1 || c2)
    }
}

// ---------------------------------------------------------------------------
// Laws.
// ---------------------------------------------------------------------------

proof fn lemma_run_end(s: Seq<NodeV>, start: int, j: int, acc: RunAcc)
    requires
        0 <= j <= s.len(),
    ensures
        j <= run_end(s, start, j, acc) <= s.len(),
    decreases s.len() - j,
{
    if j < s.len() && is_ws_text(s[j]) {
        lemma_run_end(s, start, j + 1, acc);
    } else if j < s.len() && joins(s[start], s[j], acc) {
        lemma_run_end(s, start, j + 1, grow_run(acc, s[j]));
    }
}

#[verifier::spinoff_prover]
#[verifier::rlimit(40)]
proof fn lemma_sweep_unchanged(s: Seq<NodeV>, i: int)
    requires
        0 <= i <= s.len(),
        !sweep(s, i).1,
    ensures
        sweep(s, i).0 == s.subrange(i, s.len() as int),
    decreases s.len() - i,
{
    if i < s.len() {
        if !mergeable(s[i]) {
            lemma_sweep_unchanged(s, i + 1);
            assert(seq![s[i]] + s.subrange(i + 1, s.len() as int) =~= s.subrange(i, s.len() as int));
        } else {
            lemma_run_end(s, i, i + 1, run_start(s[i]));
            let e = run_end(s, i, i + 1, run_start(s[i]));
            lemma_sweep_unchanged(s, e);
            assert(s.subrange(i, e) + s.subrange(e, s.len() as int) =~= s.subrange(i, s.len() as int));
        }
    } else {
        assert(s.subrange(i, s.len() as int) =~= Seq::<NodeV>::empty());
    }
}

proof fn lemma_mp_node_unchanged(n: NodeV, blocked: bool)
    requires
        !mp_node(n, blocked).1,
    ensures
        mp_node(n, blocked).0 == n,
    decreases n, 0int,
{
    match n {
        NodeV::Element(e) => {
            if !is_foreign_name(e.name) {
                lemma_mp_nodes_unchanged(e.children, blocked || blocks_below(e.attrs));
            }
            assert(ElemV { children: e.children, ..e } == e);
        },
        _ => {},
    }
}

proof fn lemma_mp_each_unchanged(s: Seq<NodeV>, blocked: bool)
    requires
        !mp_each(s, blocked).1,
    ensures
        mp_each(s, blocked).0 == s,
    decreases s, 0int,
{
    if s.len() > 0 {
        lemma_mp_each_unchanged(s.drop_last(), blocked);
        lemma_mp_node_unchanged(s.last(), blocked);
        assert(mp_each(s, blocked).0 =~= s);
    }
}

proof fn lemma_mp_nodes_unchanged(s: Seq<NodeV>, blocked: bool)
    requires
        !mp_nodes(s, blocked).1,
    ensures
        mp_nodes(s, blocked).0 == s,
    decreases s, 1int,
{
    lemma_mp_each_unchanged(s, blocked);
    if !blocked {
        lemma_sweep_unchanged(s, 0);
        assert(s.subrange(0, s.len() as int) =~= s);
    }
}

// ---------------------------------------------------------------------------
// Executable parts.
// ---------------------------------------------------------------------------

fn is_unicode_ws_exec(c: char) -> (b: bool)
    ensures
        b == is_unicode_ws(c),
{
    c == ' ' || c == '\t' || c == '\n' || c == '\x0B' || c == '\x0C' || c == '\r' || c
        == '\u{85}' || c == '\u{A0}' || c == '\u{1680}' || ('\u{2000}' <= c && c <= '\u{200A}')
        || c == '\u{2028}' || c == '\u{2029}' || c == '\u{202F}' || c == '\u{205F}' || c
        == '\u{3000}'
}

/// Check if a node is a whitespace-only text node.
fn is_whitespace_text(n: &Node) -> (b: bool)
    ensures
        b == is_ws_text(n@),
{
    match n {
        Node::Text(t) => {
            assert(n@ == NodeV::Text(t@));
            let v = chars_of(t.as_str());
            let mut i: usize = 0;
            while i < v.len()
                invariant
                    v@ == t@,
                    n@ == NodeV::Text(t@),
                    0 <= i <= v@.len(),
                    forall|k: int| 0 <= k < i ==> is_unicode_ws(#[trigger] v@[k]),
                decreases v@.len() - i,
            {
                if !is_unicode_ws_exec(v[i]) {
                    assert(t@[i as int] == v@[i as int]);
                    assert(!is_unicode_ws(t@[i as int]));
                    assert(!all_ws(t@));
                    return false;
                }
                i += 1;
            }
            true
        },
        _ => false,
    }
}

fn d_index_exec(attrs: &Vec<Attribute>) -> (r: Option<usize>)
    ensures
        match r {
            Some(k) => d_index(attrs_view(attrs@)) == Some(k as int) && k < attrs@.len(),
            None => d_index(attrs_view(attrs@)) is None,
        },
{
    proof {
        lemma_attrs_view(attrs@);
    }
    let ghost av = attrs_view(attrs@);
    let mut i: usize = 0;
    while i < attrs.len()
        invariant
            av == attrs_view(attrs@),
            av.len() == attrs@.len(),
            forall|k: int| 0 <= k < attrs@.len() ==> #[trigger] av[k] == attrs@[k]@,
            0 <= i <= attrs@.len(),
            d_index(av) == d_index_from(av, i as int),
        decreases attrs@.len() - i,
    {
        assert(av[i as int] == attrs@[i as int]@);
        if is_lit(&attrs[i].name, "d") && attrs[i].prefix.is_none() {
            return Some(i);
        }
        i += 1;
    }
    None
}

fn is_blocking_exec(name: &String) -> (b: bool)
    ensures
        b == is_blocking(name@),
{
    is_lit(name, "id") || is_lit(name, "marker-start") || is_lit(name, "marker-mid") || is_lit(name, "marker-end")
        || is_lit(name, "fill-rule") || is_lit(name, "clip-rule") || is_lit(name, "clip-path")
        || is_lit(name, "mask") || is_lit(name, "mask-image")
}

fn is_inherited_blocker_exec(name: &String) -> (b: bool)
    ensures
        b == is_inherited_blocker(name@),
{
    is_lit(name, "marker-start") || is_lit(name, "marker-mid") || is_lit(name, "marker-end")
        || is_lit(name, "clip-path") || is_lit(name, "mask") || is_lit(name, "mask-image")
}

fn blocks_below_exec(attrs: &Vec<Attribute>) -> (b: bool)
    ensures
        b == blocks_below(attrs_view(attrs@)),
{
    proof {
        lemma_attrs_view(attrs@);
    }
    let ghost av = attrs_view(attrs@);
    let mut i: usize = 0;
    while i < attrs.len()
        invariant
            av == attrs_view(attrs@),
            av.len() == attrs@.len(),
            forall|k: int| 0 <= k < attrs@.len() ==> #[trigger] av[k] == attrs@[k]@,
            0 <= i <= attrs@.len(),
            forall|k: int|
                0 <= k < i ==> !((#[trigger] av[k]).prefix is None && is_inherited_blocker(
                    av[k].name,
                )),
        decreases attrs@.len() - i,
    {
        assert(av[i as int] == attrs[i as int]@);
        if attrs[i].prefix.is_none() && is_inherited_blocker_exec(&attrs[i].name) {
            return true;
        }
        i += 1;
    }
    false
}

fn has_url_exec(v: &String) -> (b: bool)
    ensures
        b == has_url(v@),
{
    let t = chars_of(v.as_str());
    let ghost u = "url("@;
    proof {
        reveal_strlit("url(");
    }
    if t.len() < 4 {
        assert(!has_url(v@)) by {
            if has_url(v@) {
                let k = choose|k: int| 0 <= k && k + 4 <= v@.len() && #[trigger] v@.subrange(k, k + 4) == "url("@;
            }
        }
        return false;
    }
    let mut k: usize = 0;
    while k <= t.len() - 4
        invariant
            t@ == v@,
            t@.len() >= 4,
            0 <= k <= t@.len() - 3,
            u == "url("@,
            u == seq!['u', 'r', 'l', '('],
            forall|j: int| 0 <= j < k ==> #[trigger] t@.subrange(j, j + 4) != u,
        decreases t@.len() - k,
    {
        if t[k] == 'u' && t[k + 1] == 'r' && t[k + 2] == 'l' && t[k + 3] == '(' {
            assert(t@.subrange(k as int, k + 4) =~= u);
            return true;
        }
        assert(t@.subrange(k as int, k + 4) != u) by {
            if t@.subrange(k as int, k + 4) == u {
                assert(t@.subrange(k as int, k + 4)[0] == t@[k as int]);
                assert(t@.subrange(k as int, k + 4)[1] == t@[k + 1]);
                assert(t@.subrange(k as int, k + 4)[2] == t@[k + 2]);
                assert(t@.subrange(k as int, k + 4)[3] == t@[k + 3]);
            }
        }
        k += 1;
    }
    assert(!has_url(v@)) by {
        if has_url(v@) {
            let j = choose|j: int| 0 <= j && j + 4 <= v@.len() && #[trigger] v@.subrange(j, j + 4) == "url("@;
            assert(t@.subrange(j, j + 4) != u);
        }
    }
    false
}

fn url_ref_exec(a: &Attribute) -> (b: bool)
    ensures
        b == url_ref(a@),
{
    a.prefix.is_none() && (is_lit(&a.name, "fill") || is_lit(&a.name, "stroke") || is_lit(&a.name, "filter"))
        && has_url_exec(&a.value)
}

/// Check if a node is a <path> element that can participate in merging.
fn is_mergeable_path(n: &Node) -> (b: bool)
    ensures
        b == mergeable(n@),
{
    match n {
        Node::Element(e) => {
            let ghost ev = crate::ast::elem_view(*e);
            assert(n@ == NodeV::Element(ev));
            if !is_lit(&e.name, "path") {
                return false;
            }
            if d_index_exec(&e.attributes).is_none() {
                return false;
            }
            proof {
                lemma_attrs_view(e.attributes@);
                lemma_nodes_view_len(e.children@);
            }
            let ghost av = attrs_view(e.attributes@);
            let ghost cv = nodes_view(e.children@);
            let mut i: usize = 0;
            while i < e.attributes.len()
                invariant
                    av == attrs_view(e.attributes@),
                    av.len() == e.attributes@.len(),
                    forall|k: int| 0 <= k < e.attributes@.len() ==> #[trigger] av[k]
                        == e.attributes@[k]@,
                    0 <= i <= e.attributes@.len(),
                    ev == crate::ast::elem_view(*e),
                    n@ == NodeV::Element(ev),
                    forall|k: int| 0 <= k < i ==> !((#[trigger] av[k]).prefix is None && is_blocking(av[k].name))
                        && !url_ref(av[k]),
                decreases e.attributes@.len() - i,
            {
                let a = &e.attributes[i];
                assert(av[i as int] == a@);
                if (a.prefix.is_none() && is_blocking_exec(&a.name)) || url_ref_exec(a) {
                    assert(ev.attrs[i as int] == av[i as int]);
                    return false;
                }
                i += 1;
            }
            let mut j: usize = 0;
            while j < e.children.len()
                invariant
                    cv == nodes_view(e.children@),
                    cv.len() == e.children@.len(),
                    forall|k: int| 0 <= k < e.children@.len() ==> #[trigger] cv[k]
                        == node_view(e.children@[k]),
                    0 <= j <= e.children@.len(),
                    ev == crate::ast::elem_view(*e),
                    n@ == NodeV::Element(ev),
                    forall|k: int|
                        0 <= k < j ==> !((#[trigger] cv[k]) is Element && is_animation(
                            cv[k]->Element_0.name,
                        )),
                decreases e.children@.len() - j,
            {
                assert(cv[j as int] == node_view(e.children@[j as int]));
                match &e.children[j] {
                    Node::Element(c) => {
                        if is_lit(&c.name, "animate") || is_lit(&c.name, "animateTransform") || is_lit(
                            &c.name,
                            "animateMotion",
                        ) || is_lit(&c.name, "set") {
                            assert(ev.children[j as int] == cv[j as int]);
                            return false;
                        }
                    },
                    _ => {},
                }
                j += 1;
            }
            true
        },
        _ => false,
    }
}

fn same_opt(a: &Option<String>, b: &Option<String>) -> (r: bool)
    ensures
        r == (crate::ast::opt_view(*a) == crate::ast::opt_view(*b)),
{
    match (a, b) {
        (Some(x), Some(y)) => str_eq(x.as_str(), y.as_str()),
        (None, None) => true,
        _ => false,
    }
}

fn non_d_exec(attrs: &Vec<Attribute>) -> (r: Vec<Attribute>)
    ensures
        attrs_view(r@) == non_d(attrs_view(attrs@)),
{
    let mut out: Vec<Attribute> = Vec::new();
    let mut i: usize = 0;
    while i < attrs.len()
        invariant
            0 <= i <= attrs@.len(),
            attrs_view(out@) == non_d(attrs_view(attrs@.take(i as int))),
        decreases attrs@.len() - i,
    {
        proof {
            lemma_attrs_view_push(attrs@.take(i as int), attrs@[i as int]);
            assert(attrs@.take(i as int).push(attrs@[i as int]) =~= attrs@.take(i + 1));
            let t = attrs_view(attrs@.take(i + 1));
            assert(t.drop_last() =~= attrs_view(attrs@.take(i as int)));
        }
        let a = &attrs[i];
        if !(is_lit(&a.name, "d") && a.prefix.is_none()) {
            let c = clone_attr(a);
            proof {
                lemma_attrs_view_push(out@, c);
            }
            out.push(c);
        }
        i += 1;
    }
    assert(attrs@.take(attrs@.len() as int) =~= attrs@);
    out
}

/// Check if all attributes except `d` are identical between two path elements.
fn attrs_match_exec(a: &Node, b: &Node) -> (r: bool)
    ensures
        r == attrs_match(a@, b@),
{
    let (ea, eb) = match (a, b) {
        (Node::Element(ea), Node::Element(eb)) => (ea, eb),
        _ => {
            return false;
        },
    };
    assert(a@ == NodeV::Element(crate::ast::elem_view(*ea)));
    assert(b@ == NodeV::Element(crate::ast::elem_view(*eb)));
    let na = non_d_exec(&ea.attributes);
    let nb = non_d_exec(&eb.attributes);
    proof {
        lemma_attrs_view(na@);
        lemma_attrs_view(nb@);
    }
    let ghost va = attrs_view(na@);
    let ghost vb = attrs_view(nb@);
    if na.len() != nb.len() {
        return false;
    }
    let mut i: usize = 0;
    while i < na.len()
        invariant
            va == attrs_view(na@),
            vb == attrs_view(nb@),
            va.len() == na@.len(),
            vb.len() == nb@.len(),
            na@.len() == nb@.len(),
            forall|k: int| 0 <= k < na@.len() ==> #[trigger] va[k] == na@[k]@,
            forall|k: int| 0 <= k < nb@.len() ==> #[trigger] vb[k] == nb@[k]@,
            0 <= i <= na@.len(),
            va == non_d(crate::ast::elem_view(*ea).attrs),
            vb == non_d(crate::ast::elem_view(*eb).attrs),
            a@ == NodeV::Element(crate::ast::elem_view(*ea)),
            b@ == NodeV::Element(crate::ast::elem_view(*eb)),
            forall|k: int| 0 <= k < i ==> occurs_in(#[trigger] va[k], vb),
        decreases na@.len() - i,
    {
        let x = &na[i];
        let mut found = false;
        let mut j: usize = 0;
        while j < nb.len()
            invariant
                vb == attrs_view(nb@),
                vb.len() == nb@.len(),
                forall|k: int| 0 <= k < nb@.len() ==> #[trigger] vb[k] == nb@[k]@,
                0 <= j <= nb@.len(),
                0 <= i < va.len(),
                x@ == va[i as int],
                found ==> occurs_in(va[i as int], vb),
                !found ==> forall|m: int| 0 <= m < j ==> vb[m] != va[i as int],
            decreases nb@.len() - j,
        {
            let y = &nb[j];
            assert(vb[j as int] == y@);
            if same_opt(&x.prefix, &y.prefix) && str_eq(x.name.as_str(), y.name.as_str())
                && str_eq(x.value.as_str(), y.value.as_str()) {
                found = true;
            }
            j += 1;
        }
        if !found {
            assert(!occurs_in(va[i as int], vb));
            return false;
        }
        i += 1;
    }
    proof {
        let ea_v = crate::ast::elem_view(*ea);
        let eb_v = crate::ast::elem_view(*eb);
        assert(i == na@.len());
        assert(va.len() == vb.len());
        assert forall|k: int| 0 <= k < va.len() implies occurs_in(#[trigger] va[k], vb) by {
            assert(0 <= k < i);
        }
    }
    true
}

/// Path data with its leading relative move made absolute; the exec form of `absolute_lead`.
fn absolute_lead_exec(t: &Vec<char>) -> (r: Option<Vec<char>>)
    ensures
        match absolute_lead(t@) {
            Some(u) => r is Some && r.unwrap()@ == u,
            None => r is None,
        },
{
    let i = skip_sep_exec(t, 0);
    if !(i < t.len() && (t[i] == 'M' || t[i] == 'm')) {
        return None;
    }
    proof {
        lemma_scan_progress(t@, i + 1);
        lemma_skip_ge(t@, i + 1);
    }
    match scan_number_exec(t, i + 1) {
        NumRead::Num(_, e1) => {
            proof {
                lemma_scan_progress(t@, e1 as int);
                lemma_skip_ge(t@, e1 as int);
            }
            match scan_number_exec(t, e1) {
                NumRead::Num(_, e2) => {
                    let mut out: Vec<char> = Vec::new();
                    extend_chars(&mut out, t);
                    assert(out@ =~= t@);
                    if t[i] == 'M' {
                        return Some(out);
                    }
                    let j = skip_sep_exec(t, e2);
                    if j >= t.len() || is_command_exec(t[j]) {
                        out.set(i, 'M');
                        assert(out@ =~= t@.update(i as int, 'M'));
                        Some(out)
                    } else {
                        None
                    }
                },
                _ => None,
            }
        },
        _ => None,
    }
}

pub open spec fn box_view(b: Option<(i128, i128, i128, i128)>) -> Option<PBox> {
    match b {
        Some(t) => Some((t.0 as int, t.1 as int, t.2 as int, t.3 as int)),
        None => None,
    }
}

pub open spec fn box_in_bound(b: Option<(i128, i128, i128, i128)>) -> bool {
    match b {
        Some(t) => in_bound(t.0 as int) && in_bound(t.1 as int) && in_bound(t.2 as int) && in_bound(
            t.3 as int,
        ),
        None => true,
    }
}

fn grow_exec(acc: Option<(i128, i128, i128, i128)>, x: i128, y: i128) -> (r: Option<
    (i128, i128, i128, i128),
>)
    requires
        box_in_bound(acc),
        in_bound(x as int),
        in_bound(y as int),
    ensures
        box_view(r) == grow(box_view(acc), x as int, y as int),
        box_in_bound(r),
{
    match acc {
        None => Some((x, y, x, y)),
        Some(b) => Some((
            if b.0 <= x { b.0 } else { x },
            if b.1 <= y { b.1 } else { y },
            if b.2 >= x { b.2 } else { x },
            if b.3 >= y { b.3 } else { y },
        )),
    }
}

/// The box of what a path draws, as `path_box`.
fn path_box_exec(n: &Node) -> (r: Option<(i128, i128, i128, i128)>)
    ensures
        box_view(r) == path_box(n@),
        box_in_bound(r),
{
    let t = path_d(n);
    let cmds = match parse_path_chars(&t) {
        Some(c) => c,
        None => {
            return None;
        },
    };
    let a = match normalize_to_absolute(&cmds) {
        Some(a) => a,
        None => {
            return None;
        },
    };
    let ghost av = cmds_view(a@);
    assert(path_box(n@) == (if has_arc(av) {
        None
    } else {
        box_cmds(av, 0, None)
    }));
    let mut i: usize = 0;
    while i < a.len()
        invariant
            0 <= i <= a@.len(),
            av == cmds_view(a@),
            path_box(n@) == (if has_arc(av) {
                None
            } else {
                box_cmds(av, 0, None)
            }),
            forall|k: int| 0 <= k < i ==> (#[trigger] av[k]).letter != 'A',
        decreases a@.len() - i,
    {
        assert(av[i as int] == a@[i as int]@);
        if a[i].cmd == 'A' {
            assert(av[i as int].letter == 'A');
            assert(has_arc(av));
            return None;
        }
        i += 1;
    }
    assert(!has_arc(av));
    let mut acc: Option<(i128, i128, i128, i128)> = None;
    let mut i: usize = 0;
    while i < a.len()
        invariant
            0 <= i <= a@.len(),
            av == cmds_view(a@),
            wf_cmds(av),
            !has_arc(av),
            path_box(n@) == box_cmds(av, 0, None),
            box_in_bound(acc),
            box_cmds(av, 0, None) == box_cmds(av, i as int, box_view(acc)),
        decreases a@.len() - i,
    {
        let c = &a[i];
        let ghost cv = av[i as int];
        assert(cv == c@);
        assert(wf_cmd(cv));
        let ghost acc0 = box_view(acc);
        let mut k: usize = 0;
        while k + 1 < c.args.len()
            invariant
                cv == c@,
                wf_cmd(cv),
                k % 2 == 0,
                k <= c.args@.len() + 1,
                box_in_bound(acc),
                box_pts(cv.args, 0, acc0) == box_pts(cv.args, k as int, box_view(acc)),
            decreases c.args@.len() - k,
        {
            assert(cv.args[k as int] == c.args@[k as int] as int);
            assert(cv.args[k + 1] == c.args@[k + 1] as int);
            assert(in_bound(cv.args[k as int]));
            assert(in_bound(cv.args[k + 1]));
            acc = grow_exec(acc, c.args[k], c.args[k + 1]);
            k += 2;
        }
        i += 1;
    }
    acc
}


pub open spec fn pts_view(v: Seq<(i128, i128)>) -> Seq<Pt> {
    v.map_values(|p: (i128, i128)| (p.0 as int, p.1 as int))
}

pub open spec fn pts_bound(v: Seq<(i128, i128)>) -> bool {
    forall|k: int| 0 <= k < v.len() ==> in_bound((#[trigger] v[k]).0 as int) && in_bound(v[k].1 as int)
}

/// The points of a path, as `path_pts`.
fn path_pts_exec(n: &Node) -> (r: Vec<(i128, i128)>)
    ensures
        pts_view(r@) == path_pts(n@),
        pts_bound(r@),
{
    let t = path_d(n);
    let cmds = match parse_path_chars(&t) {
        Some(c) => c,
        None => {
            return Vec::new();
        },
    };
    let a = match normalize_to_absolute(&cmds) {
        Some(a) => a,
        None => {
            return Vec::new();
        },
    };
    let ghost av = cmds_view(a@);
    let mut i: usize = 0;
    while i < a.len()
        invariant
            0 <= i <= a@.len(),
            av == cmds_view(a@),
            path_pts(n@) == (if has_arc(av) {
                Seq::<Pt>::empty()
            } else {
                pts_cmds(av, 0, Seq::empty())
            }),
            forall|k: int| 0 <= k < i ==> (#[trigger] av[k]).letter != 'A',
        decreases a@.len() - i,
    {
        assert(av[i as int] == a@[i as int]@);
        if a[i].cmd == 'A' {
            assert(av[i as int].letter == 'A');
            assert(has_arc(av));
            return Vec::new();
        }
        i += 1;
    }
    assert(!has_arc(av));
    let mut out: Vec<(i128, i128)> = Vec::new();
    assert(pts_view(out@) =~= Seq::<Pt>::empty());
    let mut i: usize = 0;
    while i < a.len()
        invariant
            0 <= i <= a@.len(),
            av == cmds_view(a@),
            wf_cmds(av),
            path_pts(n@) == pts_cmds(av, 0, Seq::empty()),
            pts_bound(out@),
            pts_cmds(av, 0, Seq::empty()) == pts_cmds(av, i as int, pts_view(out@)),
        decreases a@.len() - i,
    {
        let c = &a[i];
        let ghost cv = av[i as int];
        assert(cv == c@);
        assert(wf_cmd(cv));
        let ghost acc0 = pts_view(out@);
        let mut k: usize = 0;
        while k + 1 < c.args.len()
            invariant
                cv == c@,
                wf_cmd(cv),
                k % 2 == 0,
                k <= c.args@.len() + 1,
                pts_bound(out@),
                pts_args(cv.args, 0, acc0) == pts_args(cv.args, k as int, pts_view(out@)),
            decreases c.args@.len() - k,
        {
            assert(cv.args[k as int] == c.args@[k as int] as int);
            assert(cv.args[k + 1] == c.args@[k + 1] as int);
            assert(in_bound(cv.args[k as int]));
            assert(in_bound(cv.args[k + 1]));
            let ghost before = out@;
            out.push((c.args[k], c.args[k + 1]));
            assert(pts_view(out@) =~= pts_view(before).push((cv.args[k as int], cv.args[k + 1])));
            k += 2;
        }
        i += 1;
    }
    out
}

proof fn lemma_cross_fits(o: (i128, i128), a: (i128, i128), b: (i128, i128))
    requires
        in_bound(o.0 as int),
        in_bound(o.1 as int),
        in_bound(a.0 as int),
        in_bound(a.1 as int),
        in_bound(b.0 as int),
        in_bound(b.1 as int),
    ensures
        -4_000_000_000_000_000_000_000_000_000_000_000_000int <= (a.0 - o.0) * (b.1 - o.1)
            <= 4_000_000_000_000_000_000_000_000_000_000_000_000int,
        -4_000_000_000_000_000_000_000_000_000_000_000_000int <= (a.1 - o.1) * (b.0 - o.0)
            <= 4_000_000_000_000_000_000_000_000_000_000_000_000int,
{
    lemma_product_fits(a.0 - o.0, b.1 - o.1);
    lemma_product_fits(a.1 - o.1, b.0 - o.0);
}

proof fn lemma_product_fits(x: int, y: int)
    requires
        -2_000_000_000_000_000_000int <= x <= 2_000_000_000_000_000_000int,
        -2_000_000_000_000_000_000int <= y <= 2_000_000_000_000_000_000int,
    ensures
        -4_000_000_000_000_000_000_000_000_000_000_000_000int <= x * y
            <= 4_000_000_000_000_000_000_000_000_000_000_000_000int,
{
    let m: int = 2_000_000_000_000_000_000int;
    assert(-m * m <= x * y <= m * m) by (nonlinear_arith)
        requires
            -m <= x <= m,
            -m <= y <= m,
    ;
    assert(m * m == 4_000_000_000_000_000_000_000_000_000_000_000_000int) by (nonlinear_arith)
        requires
            m == 2_000_000_000_000_000_000int,
    ;
}

fn cross_exec(o: (i128, i128), a: (i128, i128), b: (i128, i128)) -> (r: i128)
    requires
        in_bound(o.0 as int),
        in_bound(o.1 as int),
        in_bound(a.0 as int),
        in_bound(a.1 as int),
        in_bound(b.0 as int),
        in_bound(b.1 as int),
    ensures
        r as int == cross((o.0 as int, o.1 as int), (a.0 as int, a.1 as int), (b.0 as int, b.1 as int)),
{
    proof {
        lemma_cross_fits(o, a, b);
    }
    let x1 = a.0 - o.0;
    let y1 = b.1 - o.1;
    let x2 = a.1 - o.1;
    let y2 = b.0 - o.0;
    x1 * y1 - x2 * y2
}

fn all_side_exec(o: (i128, i128), q: (i128, i128), pts: &Vec<(i128, i128)>, m: u8) -> (r: bool)
    requires
        in_bound(o.0 as int),
        in_bound(o.1 as int),
        in_bound(q.0 as int),
        in_bound(q.1 as int),
        pts_bound(pts@),
    ensures
        r == all_side((o.0 as int, o.1 as int), (q.0 as int, q.1 as int), pts_view(pts@), m),
{
    let ghost pv = pts_view(pts@);
    let ghost ov = (o.0 as int, o.1 as int);
    let ghost qv = (q.0 as int, q.1 as int);
    let mut k: usize = 0;
    while k < pts.len()
        invariant
            pv == pts_view(pts@),
            ov == (o.0 as int, o.1 as int),
            qv == (q.0 as int, q.1 as int),
            in_bound(o.0 as int),
            in_bound(o.1 as int),
            in_bound(q.0 as int),
            in_bound(q.1 as int),
            pts_bound(pts@),
            0 <= k <= pts@.len(),
            forall|k2: int| 0 <= k2 < k ==> side_ok(m, cross(ov, qv, #[trigger] pv[k2])),
        decreases pts@.len() - k,
    {
        let c = cross_exec(o, q, pts[k]);
        assert(pv[k as int] == (pts@[k as int].0 as int, pts@[k as int].1 as int));
        let ok = if m == 0 {
            c <= 0
        } else if m == 1 {
            c > 0
        } else if m == 2 {
            c >= 0
        } else {
            c < 0
        };
        if !ok {
            assert(!side_ok(m, cross(ov, qv, pv[k as int])));
            return false;
        }
        k += 1;
    }
    true
}

fn splits_exec(a: &Vec<(i128, i128)>, b: &Vec<(i128, i128)>, i: usize, j: usize) -> (r: bool)
    requires
        i < a@.len(),
        j < a@.len(),
        pts_bound(a@),
        pts_bound(b@),
    ensures
        r == splits(pts_view(a@), pts_view(b@), i as int, j as int),
{
    let p = a[i];
    let q = a[j];
    assert(in_bound(a@[i as int].0 as int) && in_bound(a@[i as int].1 as int));
    assert(in_bound(a@[j as int].0 as int) && in_bound(a@[j as int].1 as int));
    assert(pts_view(a@)[i as int] == (p.0 as int, p.1 as int));
    assert(pts_view(a@)[j as int] == (q.0 as int, q.1 as int));
    if p.0 == q.0 && p.1 == q.1 {
        return false;
    }
    (all_side_exec(p, q, a, 0) && all_side_exec(p, q, b, 1)) || (all_side_exec(p, q, a, 2)
        && all_side_exec(p, q, b, 3))
}

/// Whether a line through two points of `a` separates `a` from `b`.
fn any_split_exec(a: &Vec<(i128, i128)>, b: &Vec<(i128, i128)>) -> (r: bool)
    requires
        pts_bound(a@),
        pts_bound(b@),
    ensures
        r == exists|i: int, j: int|
            0 <= i < a@.len() && 0 <= j < a@.len() && #[trigger] splits(
                pts_view(a@),
                pts_view(b@),
                i,
                j,
            ),
{
    let ghost av = pts_view(a@);
    let ghost bv = pts_view(b@);
    let mut i: usize = 0;
    while i < a.len()
        invariant
            av == pts_view(a@),
            bv == pts_view(b@),
            pts_bound(a@),
            pts_bound(b@),
            0 <= i <= a@.len(),
            forall|i2: int, j2: int|
                0 <= i2 < i && 0 <= j2 < a@.len() ==> !#[trigger] splits(av, bv, i2, j2),
        decreases a@.len() - i,
    {
        let mut j: usize = 0;
        while j < a.len()
            invariant
                av == pts_view(a@),
                bv == pts_view(b@),
                pts_bound(a@),
                pts_bound(b@),
                0 <= i < a@.len(),
                0 <= j <= a@.len(),
                forall|i2: int, j2: int|
                    0 <= i2 < i && 0 <= j2 < a@.len() ==> !#[trigger] splits(av, bv, i2, j2),
                forall|j2: int| 0 <= j2 < j ==> !#[trigger] splits(av, bv, i as int, j2),
            decreases a@.len() - j,
        {
            if splits_exec(a, b, i, j) {
                assert(splits(av, bv, i as int, j as int));
                return true;
            }
            j += 1;
        }
        i += 1;
    }
    false
}

fn hulls_apart_exec(a: &Vec<(i128, i128)>, b: &Vec<(i128, i128)>) -> (r: bool)
    requires
        pts_bound(a@),
        pts_bound(b@),
    ensures
        r == hulls_apart(pts_view(a@), pts_view(b@)),
{
    if a.len() > HULL_CAP || b.len() > HULL_CAP {
        return false;
    }
    any_split_exec(a, b) || any_split_exec(b, a)
}

fn apart_exec(a: (i128, i128, i128, i128), b: (i128, i128, i128, i128)) -> (r: bool)
    ensures
        r == apart(
            (a.0 as int, a.1 as int, a.2 as int, a.3 as int),
            (b.0 as int, b.1 as int, b.2 as int, b.3 as int),
        ),
{
    a.2 < b.0 || b.2 < a.0 || a.3 < b.1 || b.3 < a.1
}

/// End of the run starting at the mergeable path `s[start]`.
fn run_end_exec(s: &Vec<Node>, start: usize) -> (e: usize)
    requires
        start < s.len(),
    ensures
        e as int == run_end(nodes_view(s@), start as int, start + 1, run_start(nodes_view(s@)[start as int])),
        start < e <= s@.len(),
{
    proof {
        lemma_nodes_view_len(s@);
    }
    let ghost sv = nodes_view(s@);
    let mut acc = path_box_exec(&s[start]);
    let mut accp = path_pts_exec(&s[start]);
    assert(sv[start as int] == node_view(s@[start as int]));
    let mut j = start + 1;
    while j < s.len()
        invariant
            sv == nodes_view(s@),
            sv.len() == s@.len(),
            forall|k: int| 0 <= k < s@.len() ==> #[trigger] sv[k] == node_view(s@[k]),
            start < j <= s@.len(),
            box_in_bound(acc),
            pts_bound(accp@),
            run_end(sv, start as int, start + 1, run_start(sv[start as int])) == run_end(
                sv,
                start as int,
                j as int,
                (box_view(acc), pts_view(accp@)),
            ),
        decreases s@.len() - j,
    {
        assert(sv[j as int] == node_view(s@[j as int]));
        assert(sv[start as int] == node_view(s@[start as int]));
        if is_whitespace_text(&s[j]) {
            j += 1;
        } else if is_mergeable_path(&s[j]) && attrs_match_exec(&s[start], &s[j])
            && absolute_lead_exec(&path_d(&s[j])).is_some() {
            let b = path_box_exec(&s[j]);
            match (acc, b) {
                (Some(x), Some(y)) => {
                    let mut pj = path_pts_exec(&s[j]);
                    if apart_exec(x, y) || hulls_apart_exec(&accp, &pj) {
                        acc = Some((
                            if x.0 <= y.0 { x.0 } else { y.0 },
                            if x.1 <= y.1 { x.1 } else { y.1 },
                            if x.2 >= y.2 { x.2 } else { y.2 },
                            if x.3 >= y.3 { x.3 } else { y.3 },
                        ));
                        let ghost before = accp@;
                        let ghost pjv = pj@;
                        accp.append(&mut pj);
                        assert(accp@ == before + pjv);
                        assert(pts_view(accp@) =~= pts_view(before) + pts_view(pjv));
                        assert(pts_bound(accp@)) by {
                            assert forall|k: int| 0 <= k < accp@.len() implies in_bound(
                                (#[trigger] accp@[k]).0 as int,
                            ) && in_bound(accp@[k].1 as int) by {
                                if k < before.len() {
                                    assert(accp@[k] == before[k]);
                                } else {
                                    assert(accp@[k] == pjv[k - before.len()]);
                                }
                            }
                        }
                        j += 1;
                    } else {
                        return j;
                    }
                },
                _ => {
                    return j;
                },
            }
        } else {
            return j;
        }
    }
    j
}

/// The joined path data of the run `s[i..e]`, and how many paths it holds.
fn combine_exec(s: &Vec<Node>, i: usize, e: usize) -> (r: (Vec<char>, usize))
    requires
        i < e <= s@.len(),
        mergeable(node_view(s@[i as int])),
    ensures
        r.0@ == combine(nodes_view(s@), i as int, e as int),
        r.1 as int == path_count(nodes_view(s@), i as int, e as int),
{
    proof {
        lemma_nodes_view_len(s@);
    }
    let ghost sv = nodes_view(s@);
    let mut out: Vec<char> = Vec::new();
    let mut count: usize = 0;
    let mut k = i;
    while k < e
        invariant
            sv == nodes_view(s@),
            sv.len() == s@.len(),
            forall|m: int| 0 <= m < s@.len() ==> #[trigger] sv[m] == node_view(s@[m]),
            i <= k <= e <= s@.len(),
            mergeable(sv[i as int]),
            out@ == combine(sv, i as int, k as int),
            count as int == path_count(sv, i as int, k as int),
            count <= k - i,
        decreases e - k,
    {
        assert(sv[k as int] == node_view(s@[k as int]));
        if is_mergeable_path(&s[k]) {
            let d = path_d(&s[k]);
            if k == i {
                out = d;
            } else {
                if out.len() > 0 {
                    let last = out[out.len() - 1];
                    if last != ' ' && last != 'z' && last != 'Z' {
                        out.push(' ');
                    }
                }
                let u = match absolute_lead_exec(&d) {
                    Some(u) => u,
                    None => d,
                };
                extend_chars(&mut out, &u);
            }
            count += 1;
        }
        k += 1;
    }
    (out, count)
}

/// The characters of the path's first unprefixed `d`.
fn path_d(n: &Node) -> (r: Vec<char>)
    ensures
        r@ == d_value(n@),
{
    match n {
        Node::Element(e) => {
            match d_index_exec(&e.attributes) {
                Some(k) => {
                    proof {
                        lemma_attrs_view(e.attributes@);
                    }
                    chars_of(e.attributes[k].value.as_str())
                },
                None => Vec::new(),
            }
        },
        _ => Vec::new(),
    }
}

/// A copy of the path with its first unprefixed `d` set to `d`.
fn set_d(n: &Node, d: String) -> (r: Node)
    ensures
        r@ == with_d(n@, d@),
{
    match n {
        Node::Element(e) => {
            match d_index_exec(&e.attributes) {
                Some(k) => {
                    proof {
                        lemma_attrs_view(e.attributes@);
                    }
                    let ghost old_av = attrs_view(e.attributes@);
                    let mut attributes = clone_attrs(&e.attributes);
                    proof {
                        lemma_attrs_view(attributes@);
                    }
                    let na = Attribute {
                        prefix: clone_opt(&e.attributes[k].prefix),
                        name: e.attributes[k].name.clone(),
                        value: d,
                    };
                    let ghost before = attributes@;
                    attributes.set(k, na);
                    proof {
                        lemma_attrs_view(attributes@);
                        assert(attrs_view(attributes@) =~= old_av.update(
                            k as int,
                            AttrV { value: d@, ..old_av[k as int] },
                        )) by {
                            assert forall|m: int| 0 <= m < attributes@.len() implies #[trigger] attrs_view(
                                attributes@,
                            )[m] == old_av.update(
                                k as int,
                                AttrV { value: d@, ..old_av[k as int] },
                            )[m] by {
                                if m != k {
                                    assert(attributes@[m] == before[m]);
                                    assert(attrs_view(before)[m] == before[m]@);
                                }
                            }
                        }
                    }
                    Node::Element(
                        Element {
                            prefix: clone_opt(&e.prefix),
                            name: e.name.clone(),
                            attributes,
                            children: crate::ast::clone_nodes(&e.children),
                        },
                    )
                },
                None => clone_node(n),
            }
        },
        _ => clone_node(n),
    }
}

/// One sweep over a sibling list.
fn sweep_exec(s: &Vec<Node>) -> (r: (Vec<Node>, bool))
    ensures
        (nodes_view(r.0@), r.1) == sweep(nodes_view(s@), 0),
{
    proof {
        lemma_nodes_view_len(s@);
    }
    let ghost sv = nodes_view(s@);
    let mut out: Vec<Node> = Vec::new();
    let mut changed = false;
    let mut i: usize = 0;
    while i < s.len()
        invariant
            sv == nodes_view(s@),
            sv.len() == s@.len(),
            forall|m: int| 0 <= m < s@.len() ==> #[trigger] sv[m] == node_view(s@[m]),
            0 <= i <= s@.len(),
            sweep(sv, 0) == (nodes_view(out@) + sweep(sv, i as int).0, changed || sweep(
                sv,
                i as int,
            ).1),
        decreases s@.len() - i,
    {
        assert(sv[i as int] == node_view(s@[i as int]));
        if !is_mergeable_path(&s[i]) {
            let n = clone_node(&s[i]);
            proof {
                lemma_nodes_view_push(out@, n);
                let (r, c) = sweep(sv, i + 1);
                assert(nodes_view(out@) + (seq![sv[i as int]] + r) =~= nodes_view(out@).push(n@)
                    + r);
            }
            out.push(n);
            i += 1;
        } else {
            let e = run_end_exec(s, i);
            let (d, count) = combine_exec(s, i, e);
            proof {
                let (r, c) = sweep(sv, e as int);
                assert(sweep(sv, i as int) == (if path_count(sv, i as int, e as int) >= 2 {
                    (seq![with_d(sv[i as int], combine(sv, i as int, e as int))] + r, true)
                } else {
                    (sv.subrange(i as int, e as int) + r, c)
                }));
            }
            if count >= 2 {
                let ds = string_from_chars(&d);
                let n = set_d(&s[i], ds);
                proof {
                    lemma_nodes_view_push(out@, n);
                    let (r, c) = sweep(sv, e as int);
                    assert(nodes_view(out@) + (seq![n@] + r) =~= nodes_view(out@).push(n@) + r);
                }
                out.push(n);
                changed = true;
            } else {
                let ghost base = nodes_view(out@);
                let mut k = i;
                while k < e
                    invariant
                        sv == nodes_view(s@),
                        sv.len() == s@.len(),
                        forall|m: int| 0 <= m < s@.len() ==> #[trigger] sv[m] == node_view(s@[m]),
                        i <= k <= e <= s@.len(),
                        nodes_view(out@) == base + sv.subrange(i as int, k as int),
                    decreases e - k,
                {
                    let n = clone_node(&s[k]);
                    proof {
                        lemma_nodes_view_push(out@, n);
                        assert(sv.subrange(i as int, k + 1) =~= sv.subrange(i as int, k as int).push(
                            sv[k as int],
                        ));
                        assert(sv[k as int] == n@);
                    }
                    out.push(n);
                    k += 1;
                }
                proof {
                    let (r, c) = sweep(sv, e as int);
                    assert(base + (sv.subrange(i as int, e as int) + r) =~= nodes_view(out@) + r);
                }
            }
            i = e;
        }
    }
    assert(sweep(sv, i as int) == (Seq::<NodeV>::empty(), false));
    assert(nodes_view(out@) + Seq::<NodeV>::empty() =~= nodes_view(out@));
    (out, changed)
}

/// Sweeps a sibling list until nothing merges.
fn merge_level_exec(s: Vec<Node>) -> (r: (Vec<Node>, bool))
    ensures
        (nodes_view(r.0@), r.1) == merge_level(nodes_view(s@)),
    decreases s@.len(),
{
    let (t, c) = sweep_exec(&s);
    proof {
        lemma_nodes_view_len(t@);
        lemma_nodes_view_len(s@);
    }
    if c && t.len() < s.len() {
        let (u, _) = merge_level_exec(t);
        (u, true)
    } else {
        (t, c)
    }
}

fn mp_node_exec(n: &Node, blocked: bool) -> (r: (Node, bool))
    ensures
        (r.0@, r.1) == mp_node(n@, blocked),
    decreases n, 1int,
{
    match n {
        Node::Element(e) => {
            let (children, c) = if is_foreign_exec(&e.name) {
                (crate::ast::clone_nodes(&e.children), false)
            } else {
                let b = blocked || blocks_below_exec(&e.attributes);
                mp_nodes_exec(&e.children, b)
            };
            let ne = Element {
                prefix: clone_opt(&e.prefix),
                name: e.name.clone(),
                attributes: clone_attrs(&e.attributes),
                children,
            };
            (Node::Element(ne), c)
        },
        _ => (clone_node(n), false),
    }
}

fn mp_nodes_exec(v: &Vec<Node>, blocked: bool) -> (r: (Vec<Node>, bool))
    ensures
        (nodes_view(r.0@), r.1) == mp_nodes(nodes_view(v@), blocked),
    decreases v, 0int,
{
    let mut out: Vec<Node> = Vec::new();
    let mut changed = false;
    let mut i: usize = 0;
    while i < v.len()
        invariant
            0 <= i <= v@.len(),
            (nodes_view(out@), changed) == mp_each(nodes_view(v@.take(i as int)), blocked),
        decreases v@.len() - i,
    {
        let (n, c) = mp_node_exec(&v[i], blocked);
        proof {
            lemma_take_push(v@, i as int);
            lemma_nodes_view_push(out@, n);
        }
        out.push(n);
        changed = changed || c;
        i += 1;
    }
    proof {
        lemma_take_all(v@);
    }
    if blocked {
        return (out, changed);
    }
    let (u, c2) = merge_level_exec(out);
    (u, changed || c2)
}

impl Pass for MergePaths {
    open spec fn apply(&self, d: Seq<NodeV>) -> Seq<NodeV> {
        mp_nodes(d, false).0
    }

    open spec fn reports_change(&self, d: Seq<NodeV>) -> bool {
        mp_nodes(d, false).1
    }

    open spec fn pass_name(&self) -> Seq<char> {
        "mergePaths"@
    }

    fn name(&self) -> (r: &'static str) {
        "mergePaths"
    }

    fn run(&self, doc: &mut Document) -> (r: PassResult) {
        let (children, changed) = mp_nodes_exec(&doc.children, false);
        doc.children = children;
        result_from(changed)
    }

    proof fn lemma_unchanged(&self, d: Seq<NodeV>) {
        lemma_mp_nodes_unchanged(d, false);
    }
}

/// What the paths of `s[i..k]` draw, made absolute, one after another (`s[i]` being the
/// first path); `None` where one of them does not read.
pub open spec fn drawn(s: Seq<NodeV>, i: int, k: int) -> Option<Seq<PCmd>>
    decreases k - i,
{
    if k <= i {
        Some(Seq::empty())
    } else if !mergeable(s[k - 1]) {
        drawn(s, i, k - 1)
    } else if k - 1 == i {
        match sp_parse_path(d_value(s[i])) {
            Some(c) => normalize(c),
            None => None,
        }
    } else {
        match (drawn(s, i, k - 1), sp_parse_path(d_value(s[k - 1]))) {
            (Some(x), Some(c)) => match normalize(c) {
                Some(y) => Some(x + y),
                None => None,
            },
            _ => None,
        }
    }
}

/// A path whose box is known reads, and made absolute it holds.
proof fn lemma_box_reads(n: NodeV)
    requires
        path_box(n) is Some,
    ensures
        sp_parse_path(d_value(n)) is Some,
        normalize(sp_parse_path(d_value(n)).unwrap()) is Some,
{
}

/// What the merged data of the paths `s[i..k]` draws, where each later path can join.
proof fn lemma_combine_draws(s: Seq<NodeV>, i: int, k: int)
    requires
        0 <= i < k <= s.len(),
        mergeable(s[i]),
        path_box(s[i]) is Some,
        forall|m: int|
            i < m < k && #[trigger] mergeable(s[m]) ==> absolute_lead(d_value(s[m])) is Some
                && path_box(s[m]) is Some,
    ensures
        sp_parse_path(combine(s, i, k)) matches Some(c) && normalize(c) == drawn(s, i, k),
        drawn(s, i, k) is Some,
    decreases k - i,
{
    if k - 1 == i {
        lemma_box_reads(s[i]);
    } else {
        lemma_combine_draws(s, i, k - 1);
        if mergeable(s[k - 1]) {
            lemma_box_reads(s[k - 1]);
            let a = combine(s, i, k - 1);
            lemma_join_draws_both(a, d_value(s[k - 1]));
        }
    }
}

/// The paths from `j` up to the end of a run are white-space text or paths that can join.
proof fn lemma_run_members(s: Seq<NodeV>, start: int, j: int, acc: RunAcc)
    requires
        0 <= j,
    ensures
        forall|m: int|
            j <= m < run_end(s, start, j, acc) && #[trigger] mergeable(s[m]) ==> absolute_lead(
                d_value(s[m]),
            ) is Some && path_box(s[m]) is Some,
    decreases s.len() - j,
{
    if 0 <= j < s.len() {
        if is_ws_text(s[j]) {
            lemma_run_members(s, start, j + 1, acc);
        } else if joins(s[start], s[j], acc) {
            lemma_run_members(s, start, j + 1, grow_run(acc, s[j]));
        }
    }
}

/// Merging keeps the drawing: where a sweep meets a path `s[i]` that reads, the data it
/// gives the run that starts there reads, and made absolute it is what the run's paths
/// draw, made absolute, one after another.
pub proof fn lemma_merge_draws_all(s: Seq<NodeV>, i: int)
    requires
        0 <= i < s.len(),
        mergeable(s[i]),
        path_box(s[i]) is Some,
    ensures
        ({
            let e = run_end(s, i, i + 1, run_start(s[i]));
            &&& drawn(s, i, e) is Some
            &&& sp_parse_path(combine(s, i, e)) matches Some(c) && normalize(c) == drawn(s, i, e)
        }),
{
    lemma_run_end(s, i, i + 1, run_start(s[i]));
    lemma_run_members(s, i, i + 1, run_start(s[i]));
    let e = run_end(s, i, i + 1, run_start(s[i]));
    lemma_combine_draws(s, i, e);
}

/// Whether every attribute of `a` other than its unprefixed `d` is on `b` too, with the
/// same prefix, name and value.
pub open spec fn carries_others(a: ElemV, b: ElemV) -> bool {
    forall|k: int|
        0 <= k < a.attrs.len() && !((#[trigger] a.attrs[k]).prefix is None && a.attrs[k].name
            == "d"@) ==> exists|l: int| 0 <= l < b.attrs.len() && b.attrs[l] == a.attrs[k]
}

proof fn lemma_non_d_holds(attrs: Seq<AttrV>)
    ensures
        forall|k: int|
            0 <= k < attrs.len() && !((#[trigger] attrs[k]).prefix is None && attrs[k].name
                == "d"@) ==> exists|i: int| 0 <= i < non_d(attrs).len() && non_d(attrs)[i] == attrs[k],
        forall|i: int|
            0 <= i < non_d(attrs).len() ==> exists|l: int|
                0 <= l < attrs.len() && attrs[l] == #[trigger] non_d(attrs)[i],
    decreases attrs.len(),
{
    if attrs.len() > 0 {
        let init = attrs.drop_last();
        lemma_non_d_holds(init);
        let r = non_d(init);
        assert forall|k: int|
            0 <= k < attrs.len() && !((#[trigger] attrs[k]).prefix is None && attrs[k].name
                == "d"@) implies exists|i: int| 0 <= i < non_d(attrs).len() && non_d(attrs)[i] == attrs[k] by {
            if k < init.len() {
                assert(init[k] == attrs[k]);
                let i = choose|i: int| 0 <= i < r.len() && r[i] == init[k];
                assert(non_d(attrs)[i] == attrs[k]);
            } else {
                assert(non_d(attrs)[r.len() as int] == attrs[k]);
            }
        }
        assert forall|i: int| 0 <= i < non_d(attrs).len() implies exists|l: int|
            0 <= l < attrs.len() && attrs[l] == #[trigger] non_d(attrs)[i] by {
            if i < r.len() {
                assert(non_d(attrs)[i] == r[i]);
                let l = choose|l: int| 0 <= l < init.len() && init[l] == r[i];
                assert(attrs[l] == init[l]);
            } else {
                assert(non_d(attrs)[i] == attrs[attrs.len() - 1]);
            }
        }
    }
}

/// Merged paths carry the same attributes, `d` aside: every path of a run (from `j` on)
/// holds each attribute of the run's first path other than its `d`, with the same prefix,
/// name and value, and as many attributes other than `d` as the first path.
pub proof fn lemma_run_same_attrs(s: Seq<NodeV>, start: int, j: int, acc: RunAcc)
    requires
        0 <= j,
        0 <= start < s.len(),
    ensures
        forall|m: int|
            j <= m < run_end(s, start, j, acc) && #[trigger] mergeable(s[m]) ==> s[start] is Element
                && s[m] is Element && carries_others(s[start]->Element_0, s[m]->Element_0)
                && non_d(s[start]->Element_0.attrs).len() == non_d(s[m]->Element_0.attrs).len(),
    decreases s.len() - j,
{
    if 0 <= j < s.len() {
        if is_ws_text(s[j]) {
            lemma_run_same_attrs(s, start, j + 1, acc);
        } else if joins(s[start], s[j], acc) {
            lemma_run_same_attrs(s, start, j + 1, grow_run(acc, s[j]));
            let a = s[start]->Element_0;
            let b = s[j]->Element_0;
            lemma_non_d_holds(a.attrs);
            lemma_non_d_holds(b.attrs);
            let na = non_d(a.attrs);
            let nb = non_d(b.attrs);
            assert forall|k: int|
                0 <= k < a.attrs.len() && !((#[trigger] a.attrs[k]).prefix is None
                    && a.attrs[k].name == "d"@) implies exists|l: int|
                0 <= l < b.attrs.len() && b.attrs[l] == a.attrs[k] by {
                let i = choose|i: int| 0 <= i < na.len() && na[i] == a.attrs[k];
                assert(occurs_in(na[i], nb));
                let i2 = choose|i2: int| 0 <= i2 < nb.len() && nb[i2] == na[i];
                let l = choose|l: int| 0 <= l < b.attrs.len() && b.attrs[l] == nb[i2];
                assert(b.attrs[l] == a.attrs[k]);
            }
        }
    }
}

} // verus!

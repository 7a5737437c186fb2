//! The optimized text of a path reads back as path data.
use vstd::prelude::*;

use super::grammar::{PCmd, argc, implicit_next, is_arc, is_command, lemma_skip_ge, skip_sep};
use super::cmds::{abs_letter, all_abs};
use super::normalize::{NState, norm_step, normalize, normalize_from, nstate_init, reflect};
use super::{optimized_cmds, rewrite_path, sp_optimize_path};
use super::number::{
    BOUND, SCALE, abs, div_round, lemma_grid, lemma_round_flags, on_grid, lemma_pow10_mono, lemma_pow10_pos, lemma_pow10_values, pow10,
    round_to,
};
use super::relative::{RState, lower, rel_args, rel_from, rel_step};
use super::reread::{
    arg_ok, cmd_writable, emit_at, lemma_written_reads_back, prev_at, reread_from, round_all,
    writable,
};
use super::simplify::{
    DState, detect_from, detect_shorthands, detect_step, red_from, red_step, remove_redundant,
    ends_closed, next_letter, round_cmds, simplify_curves, simplify_from, simplify_step,
};
use super::parse::{
    ArgsScan, GroupsScan, lemma_args_progress, pp_args, pp_groups, pp_outer,
    sp_parse_path,
};

verus! {

/// A command with its count of numbers, an arc's two flags being 0 or 1.
pub open spec fn shaped(c: PCmd) -> bool {
    &&& is_command(c.letter)
    &&& c.args.len() == argc(c.letter)
    &&& is_arc(c.letter) ==> (c.args[3] == 0 || c.args[3] == SCALE as int) && (c.args[4] == 0
        || c.args[4] == SCALE as int)
}

pub open spec fn all_shaped(s: Seq<PCmd>) -> bool {
    forall|i: int| 0 <= i < s.len() ==> shaped(#[trigger] s[i])
}

proof fn lemma_shaped_concat(a: Seq<PCmd>, b: Seq<PCmd>)
    requires
        all_shaped(a),
        all_shaped(b),
    ensures
        all_shaped(a + b),
{
    assert forall|i: int| 0 <= i < (a + b).len() implies shaped(#[trigger] (a + b)[i]) by {
        if i < a.len() {
            assert((a + b)[i] == a[i]);
        } else {
            assert((a + b)[i] == b[i - a.len()]);
        }
    }
}

/// The flags of an arc are read as 0 or 1.
proof fn lemma_args_flags(s: Seq<char>, p: int, c: char, i: int, n: int)
    requires
        0 <= p <= s.len(),
        0 <= i <= n,
    ensures
        pp_args(s, p, c, i, n) matches ArgsScan::Done(a, e) ==> forall|j: int|
            0 <= j < a.len() && is_arc(c) && (i + j == 3 || i + j == 4) ==> (#[trigger] a[j] == 0
                || a[j] == SCALE as int),
    decreases n - i,
{
    if i < n {
        let q = skip_sep(s, p);
        lemma_skip_ge(s, p);
        lemma_args_progress(s, p, c, i, n);
        if is_arc(c) && (i == 3 || i == 4) {
            if 0 <= q < s.len() && (s[q] == '0' || s[q] == '1') {
                lemma_args_flags(s, q + 1, c, i + 1, n);
            }
        } else {
            super::grammar::lemma_scan_progress(s, q);
            match super::grammar::scan_number(s, q) {
                super::grammar::NumScan::Num(v, e) => {
                    lemma_args_flags(s, e, c, i + 1, n);
                },
                _ => {},
            }
        }
        if let ArgsScan::Done(a, e) = pp_args(s, p, c, i, n) {
            let v = a[0];
            let rest = a.drop_first();
            assert forall|j: int|
                0 <= j < a.len() && is_arc(c) && (i + j == 3 || i + j == 4) implies (#[trigger] a[j]
                == 0 || a[j] == SCALE as int) by {
                if j > 0 {
                    assert(a[j] == rest[j - 1]);
                }
            }
        }
    }
}

/// The commands read from the groups of numbers after a letter have their shape.
proof fn lemma_groups_shaped(s: Seq<char>, p: int, c: char)
    requires
        0 <= p <= s.len(),
        is_command(c),
    ensures
        pp_groups(s, p, c) matches GroupsScan::Done(cs, e, cl) ==> all_shaped(cs) && is_command(cl),
    decreases s.len() - p,
{
    let q = skip_sep(s, p);
    lemma_skip_ge(s, p);
    if !(argc(c) == 0 || q >= s.len() || is_command(s[q])) {
        lemma_args_progress(s, q, c, 0, argc(c) as int);
        lemma_args_flags(s, q, c, 0, argc(c) as int);
        match pp_args(s, q, c, 0, argc(c) as int) {
            ArgsScan::Done(a, e) => {
                lemma_groups_shaped(s, e, implicit_next(c));
                let hd = PCmd { letter: c, args: a };
                if is_arc(c) {
                    assert(a[3] == 0 || a[3] == SCALE as int);
                    assert(a[4] == 0 || a[4] == SCALE as int);
                }
                assert(shaped(hd));
                if let GroupsScan::Done(cs, e2, cl) = pp_groups(s, e, implicit_next(c)) {
                    assert(all_shaped(seq![hd]));
                    lemma_shaped_concat(seq![hd], cs);
                }
            },
            _ => {},
        }
    } else {
        assert(all_shaped(Seq::<PCmd>::empty()));
    }
}

/// The commands read from `p` on have their shape.
proof fn lemma_outer_shaped(s: Seq<char>, p: int, cur: Option<char>)
    requires
        0 <= p <= s.len(),
        cur matches Some(c) ==> is_command(c),
    ensures
        pp_outer(s, p, cur) matches Some(cs) ==> all_shaped(cs),
    decreases s.len() - p,
{
    let q = skip_sep(s, p);
    lemma_skip_ge(s, p);
    if q < s.len() {
        let read = is_command(s[q]);
        let q2 = if read {
            skip_sep(s, q + 1)
        } else {
            q
        };
        if read {
            lemma_skip_ge(s, q + 1);
        }
        let cur2 = if read {
            Some(s[q])
        } else {
            cur
        };
        if let Some(c) = cur2 {
            if argc(c) == 0 {
                if q2 > p {
                    lemma_outer_shaped(s, q2, None);
                    let z = PCmd { letter: c, args: seq![] };
                    assert(shaped(z));
                    assert(all_shaped(seq![z]));
                    if let Some(rest) = pp_outer(s, q2, None) {
                        lemma_shaped_concat(seq![z], rest);
                    }
                }
            } else {
                super::parse::lemma_groups_bound(s, q2, c);
                lemma_groups_shaped(s, q2, c);
                if let GroupsScan::Done(cs, e, cl) = pp_groups(s, q2, c) {
                    if e > p {
                        lemma_outer_shaped(s, e, Some(cl));
                        if let Some(rest) = pp_outer(s, e, Some(cl)) {
                            lemma_shaped_concat(cs, rest);
                        }
                    }
                }
            }
        }
    } else {
        assert(all_shaped(Seq::<PCmd>::empty()));
    }
}

/// What a path's text reads as has its shape: each command its count of numbers, arc
/// flags 0 or 1.
pub proof fn lemma_parse_shaped(d: Seq<char>)
    ensures
        sp_parse_path(d) matches Some(cs) ==> all_shaped(cs),
{
    lemma_outer_shaped(d, 0, None);
}


/// Made absolute, commands keep their shape, with absolute letters.
proof fn lemma_normalize_shaped(st: NState, cmds: Seq<PCmd>)
    requires
        all_shaped(cmds),
    ensures
        normalize_from(st, cmds) matches Some(n) ==> all_shaped(n) && all_abs(n),
    decreases cmds.len(),
{
    if cmds.len() > 0 {
        let c = cmds[0];
        assert(shaped(c));
        let (st2, o) = norm_step(st, c);
        let rest = cmds.drop_first();
        assert(all_shaped(rest)) by {
            assert forall|i: int| 0 <= i < rest.len() implies shaped(#[trigger] rest[i]) by {
                assert(rest[i] == cmds[i + 1]);
            }
        }
        lemma_normalize_shaped(st2, rest);
        assert(shaped(o) && abs_letter(o.letter));
        if let Some(n2) = normalize_from(st2, rest) {
            assert(all_shaped(seq![o]));
            lemma_shaped_concat(seq![o], n2);
            assert forall|i: int| 0 <= i < (seq![o] + n2).len() implies abs_letter(
                #[trigger] (seq![o] + n2)[i].letter,
            ) by {
                if i > 0 {
                    assert((seq![o] + n2)[i] == n2[i - 1]);
                }
            }
        }
    } else {
        assert(all_shaped(Seq::<PCmd>::empty()));
    }
}

/// A coordinate within half the range held: the difference of two such, rounded, stays
/// within range.
pub open spec fn in_half(v: int) -> bool {
    2 * abs(v) + SCALE <= BOUND
}

/// A coordinate that, rounded, is within half the range.
pub open spec fn in_half_rounded(v: int) -> bool {
    2 * abs(v) + 3 * SCALE <= BOUND
}

/// Commands whose numbers are all within half the range, with room for rounding.
pub open spec fn coords_in_half(s: Seq<PCmd>) -> bool {
    forall|i: int, j: int|
        0 <= i < s.len() && 0 <= j < s[i].args.len() ==> in_half_rounded(#[trigger] s[i].args[j])
}

/// An absolute command with its shape and its numbers within half the range.
pub open spec fn tame(c: PCmd) -> bool {
    &&& shaped(c)
    &&& abs_letter(c.letter)
    &&& forall|j: int| 0 <= j < c.args.len() ==> in_half(#[trigger] c.args[j])
}

pub open spec fn all_tame(s: Seq<PCmd>) -> bool {
    forall|i: int| 0 <= i < s.len() ==> tame(#[trigger] s[i])
}

proof fn lemma_tame_concat(a: Seq<PCmd>, b: Seq<PCmd>)
    requires
        all_tame(a),
        all_tame(b),
    ensures
        all_tame(a + b),
{
    assert forall|i: int| 0 <= i < (a + b).len() implies tame(#[trigger] (a + b)[i]) by {
        if i < a.len() {
            assert((a + b)[i] == a[i]);
        } else {
            assert((a + b)[i] == b[i - a.len()]);
        }
    }
}

proof fn lemma_tame_rest(s: Seq<PCmd>)
    requires
        all_tame(s),
        s.len() > 0,
    ensures
        all_tame(s.drop_first()),
        tame(s[0]),
{
    assert forall|i: int| 0 <= i < s.drop_first().len() implies tame(#[trigger] s.drop_first()[i]) by {
        assert(s.drop_first()[i] == s[i + 1]);
    }
}

proof fn lemma_tame_one(o: PCmd)
    requires
        tame(o),
    ensures
        all_tame(seq![o]),
{
}

/// Rounding shaped absolute commands whose numbers leave room for it gives tame commands.
proof fn lemma_round_tame(n: Seq<PCmd>, p: nat)
    requires
        all_shaped(n),
        all_abs(n),
        coords_in_half(n),
    ensures
        all_tame(round_cmds(n, p)),
{
    let r = round_cmds(n, p);
    lemma_round_flags(p);
    assert forall|i: int| 0 <= i < r.len() implies tame(#[trigger] r[i]) by {
        assert(shaped(n[i]));
        assert(abs_letter(n[i].letter));
        assert forall|j: int| 0 <= j < r[i].args.len() implies in_half(#[trigger] r[i].args[j]) by {
            assert(in_half_rounded(n[i].args[j]));
            lemma_round_close(n[i].args[j], p);
        }
        if is_arc(n[i].letter) {
            assert(r[i].args[3] == round_to(n[i].args[3], p));
            assert(r[i].args[4] == round_to(n[i].args[4], p));
        }
    }
}

/// Straightening curves keeps commands tame.
proof fn lemma_simplify_tame(st: RState, cmds: Seq<PCmd>, p: nat)
    requires
        all_tame(cmds),
    ensures
        all_tame(simplify_from(st, cmds, p)),
    decreases cmds.len(),
{
    if cmds.len() > 0 {
        lemma_tame_rest(cmds);
        let c = cmds[0];
        let (st2, o) = simplify_step(st, c, p);
        assert(tame(o)) by {
            assert(forall|j: int| 0 <= j < c.args.len() ==> in_half(#[trigger] c.args[j]));
            if o != c {
                if c.letter == 'C' {
                    assert(in_half(c.args[4]) && in_half(c.args[5]));
                } else {
                    assert(in_half(c.args[2]) && in_half(c.args[3]));
                }
            }
        }
        lemma_simplify_tame(st2, cmds.drop_first(), p);
        lemma_tame_one(o);
        lemma_tame_concat(seq![o], simplify_from(st2, cmds.drop_first(), p));
    } else {
        assert(all_tame(Seq::<PCmd>::empty()));
    }
}

/// Writing smooth continuations as shorthands keeps commands tame.
proof fn lemma_detect_tame(st: DState, cmds: Seq<PCmd>, p: nat)
    requires
        all_tame(cmds),
    ensures
        all_tame(detect_from(st, cmds, p)),
    decreases cmds.len(),
{
    if cmds.len() > 0 {
        lemma_tame_rest(cmds);
        let c = cmds[0];
        let (st2, o) = detect_step(st, c, p);
        assert(tame(o)) by {
            if o != c {
                if c.letter == 'C' {
                    assert(in_half(c.args[2]) && in_half(c.args[3]));
                    assert(in_half(c.args[4]) && in_half(c.args[5]));
                } else {
                    assert(in_half(c.args[2]) && in_half(c.args[3]));
                }
            }
        }
        lemma_detect_tame(st2, cmds.drop_first(), p);
        lemma_tame_one(o);
        lemma_tame_concat(seq![o], detect_from(st2, cmds.drop_first(), p));
    } else {
        assert(all_tame(Seq::<PCmd>::empty()));
    }
}

/// Dropping lines that go nowhere keeps commands tame.
proof fn lemma_red_tame(st: RState, cmds: Seq<PCmd>, after_z: bool, p: nat)
    requires
        all_tame(cmds),
    ensures
        all_tame(red_from(st, cmds, after_z, p)),
    decreases cmds.len(),
{
    if cmds.len() > 0 {
        lemma_tame_rest(cmds);
        let c = cmds[0];
        let (st2, o) = red_step(st, c, next_letter(cmds), after_z, p);
        assert(all_tame(o)) by {
            if o.len() > 0 {
                assert(o == seq![c]);
            }
        }
        lemma_red_tame(st2, cmds.drop_first(), ends_closed(o, after_z), p);
        lemma_tame_concat(o, red_from(st2, cmds.drop_first(), ends_closed(o, after_z), p));
    } else {
        assert(all_tame(Seq::<PCmd>::empty()));
    }
}

/// Rounding moves a number by less than one coordinate unit.
proof fn lemma_round_close(v: int, p: nat)
    ensures
        abs(round_to(v, p)) <= abs(v) + SCALE,
{
    if p < 10 {
        let k = (10 - p) as nat;
        let m = pow10(k) as int;
        lemma_pow10_pos(k);
        lemma_pow10_mono(k, 10);
        lemma_pow10_values();
        let a = abs(v);
        let q = (2 * a + m) / (2 * m);
        assert(q * (2 * m) <= 2 * a + m) by (nonlinear_arith)
            requires
                m >= 1,
                a >= 0,
                q == (2 * a + m) / (2 * m),
        ;
        assert(q >= 0) by (nonlinear_arith)
            requires
                m >= 1,
                a >= 0,
                q == (2 * a + m) / (2 * m),
        ;
        assert(q * m <= a + m) by (nonlinear_arith)
            requires
                q * (2 * m) <= 2 * a + m,
                m >= 1,
        ;
        assert(q * m >= 0) by (nonlinear_arith)
            requires
                q >= 0,
                m >= 1,
        ;
        if v >= 0 {
            assert(round_to(v, p) == q * m);
        } else {
            assert(div_round(v, m) == -q);
            assert(round_to(v, p) == (-q) * m);
            assert((-q) * m == -(q * m)) by (nonlinear_arith);
        }
    }
}

/// A number that, with one unit to spare, is within range writes as text that reads back.
proof fn lemma_small_ok(c: char, idx: int, v: int, p: nat)
    requires
        abs(v) + SCALE <= BOUND,
        !(is_arc(c) && (idx == 3 || idx == 4)),
    ensures
        arg_ok(c, idx, v, p),
{
    lemma_round_close(v, p);
}

/// The state of the relative conversion: pen and subpath start within half the range.
pub open spec fn rstate_ok(st: RState) -> bool {
    in_half(st.cx) && in_half(st.cy) && in_half(st.sx) && in_half(st.sy)
}

/// Every number of a command, but an arc's flags, is within range with a unit to spare.
pub open spec fn cmd_small(o: PCmd) -> bool {
    forall|j: int|
        0 <= j < o.args.len() && !(is_arc(o.letter) && (j == 3 || j == 4)) ==> abs(
            #[trigger] o.args[j],
        ) + SCALE <= BOUND
}

proof fn lemma_small_writable(o: PCmd, p: nat)
    requires
        shaped(o),
        cmd_small(o),
    ensures
        cmd_writable(o, p),
{
    assert forall|j: int| 0 <= j < o.args.len() implies arg_ok(o.letter, j, #[trigger] o.args[j], p) by {
        if !(is_arc(o.letter) && (j == 3 || j == 4)) {
            lemma_small_ok(o.letter, j, o.args[j], p);
        }
    }
}

proof fn lemma_tame_small(c: PCmd)
    requires
        tame(c),
    ensures
        cmd_small(c),
{
    assert forall|j: int|
        0 <= j < c.args.len() && !(is_arc(c.letter) && (j == 3 || j == 4)) implies abs(
        #[trigger] c.args[j],
    ) + SCALE <= BOUND by {
        assert(in_half(c.args[j]));
    }
}

proof fn lemma_curve_rel(st: RState, c: PCmd)
    requires
        rstate_ok(st),
        tame(c),
        c.letter == 'C' || c.letter == 'S' || c.letter == 'Q' || c.letter == 'T',
    ensures
        cmd_small(PCmd { letter: lower(c.letter), args: rel_args(c.args, st.cx, st.cy) }),
        shaped(PCmd { letter: lower(c.letter), args: rel_args(c.args, st.cx, st.cy) }),
{
    let a = c.args;
    let r = rel_args(a, st.cx, st.cy);
    assert forall|j: int| 0 <= j < r.len() implies abs(#[trigger] r[j]) + SCALE <= BOUND by {
        assert(in_half(a[j]));
    }
}

/// One tame command in its shorter form writes as text that reads back.
proof fn lemma_rel_step_writable(st: RState, c: PCmd, p: nat)
    requires
        rstate_ok(st),
        tame(c),
    ensures
        cmd_writable(rel_step(st, c).1, p),
        rstate_ok(rel_step(st, c).0),
{
    let (st2, o) = rel_step(st, c);
    let a = c.args;
    let l = c.letter;
    lemma_tame_small(c);
    if o != c {
        if l == 'C' || l == 'S' || l == 'Q' || l == 'T' {
            lemma_curve_rel(st, c);
        } else if l == 'A' {
            assert(in_half(a[5]) && in_half(a[6]));
            assert(in_half(a[0]) && in_half(a[1]) && in_half(a[2]));
            assert(cmd_small(o));
        } else if l == 'M' || l == 'L' {
            assert(in_half(a[0]) && in_half(a[1]));
            assert(cmd_small(o));
        } else {
            assert(cmd_small(o));
        }
    }
    lemma_small_writable(o, p);
    if l == 'C' || l == 'S' || l == 'Q' || l == 'T' {
        assert(in_half(a[a.len() - 2]) && in_half(a[a.len() - 1]));
    } else if l == 'A' {
        assert(in_half(a[5]) && in_half(a[6]));
    } else if l == 'M' || l == 'L' {
        assert(in_half(a[0]) && in_half(a[1]));
    }
}

/// Tame commands, each in its shorter form, write as text that reads back.
proof fn lemma_rel_writable(st: RState, cmds: Seq<PCmd>, p: nat)
    requires
        rstate_ok(st),
        all_tame(cmds),
    ensures
        writable(rel_from(st, cmds), p),
    decreases cmds.len(),
{
    if cmds.len() > 0 {
        lemma_tame_rest(cmds);
        let (st2, o) = rel_step(st, cmds[0]);
        lemma_rel_step_writable(st, cmds[0], p);
        lemma_rel_writable(st2, cmds.drop_first(), p);
        let rest = rel_from(st2, cmds.drop_first());
        assert forall|i: int| 0 <= i < (seq![o] + rest).len() implies cmd_writable(
            #[trigger] (seq![o] + rest)[i],
            p,
        ) by {
            if i > 0 {
                assert((seq![o] + rest)[i] == rest[i - 1]);
            }
        }
    }
}


// ---------------------------------------------------------------------------
// What the optimized text draws.
// ---------------------------------------------------------------------------

/// Every number of a command is one that rounding to `p` places leaves as it is.
pub open spec fn grid_cmd(c: PCmd, p: nat) -> bool {
    forall|j: int| 0 <= j < c.args.len() ==> on_grid(#[trigger] c.args[j], p)
}

pub open spec fn all_grid(s: Seq<PCmd>, p: nat) -> bool {
    forall|i: int| 0 <= i < s.len() ==> grid_cmd(#[trigger] s[i], p)
}

proof fn lemma_grid_concat(a: Seq<PCmd>, b: Seq<PCmd>, p: nat)
    requires
        all_grid(a, p),
        all_grid(b, p),
    ensures
        all_grid(a + b, p),
{
    assert forall|i: int| 0 <= i < (a + b).len() implies grid_cmd(#[trigger] (a + b)[i], p) by {
        if i < a.len() {
            assert((a + b)[i] == a[i]);
        } else {
            assert((a + b)[i] == b[i - a.len()]);
        }
    }
}

proof fn lemma_grid_rest(s: Seq<PCmd>, p: nat)
    requires
        all_grid(s, p),
        s.len() > 0,
    ensures
        all_grid(s.drop_first(), p),
        grid_cmd(s[0], p),
{
    assert forall|i: int| 0 <= i < s.drop_first().len() implies grid_cmd(
        #[trigger] s.drop_first()[i],
        p,
    ) by {
        assert(s.drop_first()[i] == s[i + 1]);
    }
}

proof fn lemma_round_grid(n: Seq<PCmd>, p: nat)
    ensures
        all_grid(round_cmds(n, p), p),
{
    let r = round_cmds(n, p);
    assert forall|i: int| 0 <= i < r.len() implies grid_cmd(#[trigger] r[i], p) by {
        assert forall|j: int| 0 <= j < r[i].args.len() implies on_grid(#[trigger] r[i].args[j], p) by {
            lemma_grid(n[i].args[j], 0, p);
        }
    }
}

proof fn lemma_simplify_grid(st: RState, cmds: Seq<PCmd>, p: nat)
    requires
        all_tame(cmds),
        all_grid(cmds, p),
    ensures
        all_grid(simplify_from(st, cmds, p), p),
    decreases cmds.len(),
{
    if cmds.len() > 0 {
        lemma_tame_rest(cmds);
        lemma_grid_rest(cmds, p);
        let c = cmds[0];
        let (st2, o) = simplify_step(st, c, p);
        assert(grid_cmd(o, p)) by {
            if o != c {
                if c.letter == 'C' {
                    assert(on_grid(c.args[4], p) && on_grid(c.args[5], p));
                } else {
                    assert(on_grid(c.args[2], p) && on_grid(c.args[3], p));
                }
            }
        }
        lemma_simplify_grid(st2, cmds.drop_first(), p);
        assert(all_grid(seq![o], p));
        lemma_grid_concat(seq![o], simplify_from(st2, cmds.drop_first(), p), p);
    } else {
        assert(all_grid(Seq::<PCmd>::empty(), p));
    }
}

proof fn lemma_detect_grid(st: DState, cmds: Seq<PCmd>, p: nat)
    requires
        all_tame(cmds),
        all_grid(cmds, p),
    ensures
        all_grid(detect_from(st, cmds, p), p),
    decreases cmds.len(),
{
    if cmds.len() > 0 {
        lemma_tame_rest(cmds);
        lemma_grid_rest(cmds, p);
        let c = cmds[0];
        let (st2, o) = detect_step(st, c, p);
        assert(grid_cmd(o, p)) by {
            if o != c {
                assert(on_grid(c.args[2], p) && on_grid(c.args[3], p));
                if c.letter == 'C' {
                    assert(on_grid(c.args[4], p) && on_grid(c.args[5], p));
                }
            }
        }
        lemma_detect_grid(st2, cmds.drop_first(), p);
        assert(all_grid(seq![o], p));
        lemma_grid_concat(seq![o], detect_from(st2, cmds.drop_first(), p), p);
    } else {
        assert(all_grid(Seq::<PCmd>::empty(), p));
    }
}

/// Dropping commands keeps the rest on the grid, and the commands kept hold no close-path
/// right after another (nor first, after one).
proof fn lemma_red_grid(st: RState, cmds: Seq<PCmd>, after_z: bool, p: nat)
    requires
        all_grid(cmds, p),
    ensures
        all_grid(red_from(st, cmds, after_z, p), p),
        no_double_close(red_from(st, cmds, after_z, p)),
        after_z && red_from(st, cmds, after_z, p).len() > 0 ==> red_from(st, cmds, after_z, p)[0].letter
            != 'Z',
    decreases cmds.len(),
{
    if cmds.len() > 0 {
        lemma_grid_rest(cmds, p);
        let c = cmds[0];
        let (st2, o) = red_step(st, c, next_letter(cmds), after_z, p);
        let az2 = ends_closed(o, after_z);
        lemma_red_grid(st2, cmds.drop_first(), az2, p);
        let rest = red_from(st2, cmds.drop_first(), az2, p);
        assert(all_grid(o, p)) by {
            if o.len() > 0 {
                assert(o == seq![c]);
            }
        }
        lemma_grid_concat(o, rest, p);
        let r = o + rest;
        assert forall|k: int| 0 < k < r.len() implies !((#[trigger] r[k]).letter == 'Z' && r[k
            - 1].letter == 'Z') by {
            if o.len() == 0 {
                assert(r[k] == rest[k]);
                assert(r[k - 1] == rest[k - 1]);
            } else if k == 1 {
                assert(r[0] == c);
                assert(r[1] == rest[0]);
            } else {
                assert(r[k] == rest[k - 1]);
                assert(r[k - 1] == rest[k - 2]);
            }
        }
        if after_z && r.len() > 0 {
            if o.len() > 0 {
                assert(r[0] == c);
            } else {
                assert(r[0] == rest[0]);
            }
        }
    } else {
        assert(all_grid(Seq::<PCmd>::empty(), p));
    }
}

/// No close-path right after another.
pub open spec fn no_double_close(s: Seq<PCmd>) -> bool {
    forall|k: int| 0 < k < s.len() ==> !((#[trigger] s[k]).letter == 'Z' && s[k - 1].letter == 'Z')
}

/// The relative conversion and the absolute reading agree on the pen and subpath start.
pub open spec fn states_agree(rs: RState, ns: NState) -> bool {
    rs.cx == ns.cx && rs.cy == ns.cy && rs.sx == ns.sx && rs.sy == ns.sy
}

/// One absolute command in its shorter form reads, made absolute again, as the command
/// itself does.
#[verifier::spinoff_prover]
#[verifier::rlimit(80)]
proof fn lemma_rel_norm_step(rs: RState, ns: NState, c: PCmd, p: nat)
    requires
        states_agree(rs, ns),
        tame(c),
        grid_cmd(c, p),
        on_grid(rs.cx, p),
        on_grid(rs.cy, p),
        on_grid(rs.sx, p),
        on_grid(rs.sy, p),
    ensures
        norm_step(ns, rel_step(rs, c).1) == norm_step(ns, c),
        states_agree(rel_step(rs, c).0, norm_step(ns, c).0),
        grid_cmd(rel_step(rs, c).1, p),
        on_grid(rel_step(rs, c).0.cx, p),
        on_grid(rel_step(rs, c).0.cy, p),
        on_grid(rel_step(rs, c).0.sx, p),
        on_grid(rel_step(rs, c).0.sy, p),
        (rel_step(rs, c).1.letter == 'z') == (c.letter == 'Z'),
        rel_step(rs, c).1.letter != 'Z',
{
    let a = c.args;
    let l = c.letter;
    let o = rel_step(rs, c).1;
    assert forall|j: int| 0 <= j < a.len() implies on_grid(#[trigger] a[j], p) by {}
    if l == 'M' || l == 'L' {
        assert(a =~= seq![a[0], a[1]]);
        lemma_grid(a[0], rs.cx, p);
        lemma_grid(a[1], rs.cy, p);
    } else if l == 'C' || l == 'S' || l == 'Q' || l == 'T' {
        let r = rel_args(a, rs.cx, rs.cy);
        assert forall|j: int| 0 <= j < r.len() implies on_grid(#[trigger] r[j], p) by {
            lemma_grid(a[j], rs.cx, p);
            lemma_grid(a[j], rs.cy, p);
        }
        if l == 'C' {
            assert(a =~= seq![a[0], a[1], a[2], a[3], a[4], a[5]]);
            let b = seq![ns.cx + r[0], ns.cy + r[1], ns.cx + r[2], ns.cy + r[3], ns.cx + r[4], ns.cy
                + r[5]];
            assert(b =~= a);
        } else if l == 'S' {
            let (p1x, p1y) = reflect(ns.lc, ns.cx, ns.cy);
            assert(seq![p1x, p1y, ns.cx + r[0], ns.cy + r[1], ns.cx + r[2], ns.cy + r[3]] =~= seq![
                p1x,
                p1y,
                a[0],
                a[1],
                a[2],
                a[3],
            ]);
        } else if l == 'Q' {
            let b = seq![ns.cx + r[0], ns.cy + r[1], ns.cx + r[2], ns.cy + r[3]];
            assert(b =~= a);
        }
    } else if l == 'A' {
        lemma_grid(a[5], rs.cx, p);
        lemma_grid(a[6], rs.cy, p);
        assert(a =~= seq![a[0], a[1], a[2], a[3], a[4], a[5], a[6]]);
    } else if l == 'Z' {
        assert(a =~= Seq::<int>::empty());
    }
}

/// Commands in their shorter forms read, made absolute, as the commands themselves do.
proof fn lemma_rel_norm(rs: RState, ns: NState, cmds: Seq<PCmd>, p: nat)
    requires
        states_agree(rs, ns),
        all_tame(cmds),
        all_grid(cmds, p),
        on_grid(rs.cx, p),
        on_grid(rs.cy, p),
        on_grid(rs.sx, p),
        on_grid(rs.sy, p),
    ensures
        normalize_from(ns, rel_from(rs, cmds)) == normalize_from(ns, cmds),
        all_grid(rel_from(rs, cmds), p),
        rel_from(rs, cmds).len() == cmds.len(),
        forall|k: int|
            0 <= k < cmds.len() ==> ((#[trigger] rel_from(rs, cmds)[k]).letter == 'z') == (
            cmds[k].letter == 'Z') && rel_from(rs, cmds)[k].letter != 'Z',
    decreases cmds.len(),
{
    if cmds.len() > 0 {
        lemma_tame_rest(cmds);
        lemma_grid_rest(cmds, p);
        let c = cmds[0];
        let (rs2, o) = rel_step(rs, c);
        let ns2 = norm_step(ns, c).0;
        lemma_rel_norm_step(rs, ns, c, p);
        lemma_rel_norm(rs2, ns2, cmds.drop_first(), p);
        let rest = rel_from(rs2, cmds.drop_first());
        let t = seq![o] + rest;
        assert(t[0] == o);
        assert(t.drop_first() =~= rest);
        assert(all_grid(seq![o], p));
        lemma_grid_concat(seq![o], rest, p);
        assert forall|k: int| 0 <= k < cmds.len() implies ((#[trigger] t[k]).letter == 'z') == (
        cmds[k].letter == 'Z') && t[k].letter != 'Z' by {
            if k > 0 {
                assert(t[k] == rest[k - 1]);
                assert(cmds[k] == cmds.drop_first()[k - 1]);
            }
        }
    } else {
        assert(all_grid(Seq::<PCmd>::empty(), p));
    }
}

/// Reading back commands on the grid, with no close-path right after another, gives them
/// as they are.
proof fn lemma_reread_same(t: Seq<PCmd>, i: int, p: nat)
    requires
        0 <= i <= t.len(),
        writable(t, p),
        all_grid(t, p),
        forall|k: int| 0 < k < t.len() ==> !((#[trigger] t[k]).letter == 'z' && t[k - 1].letter == 'z'),
        forall|k: int| 0 <= k < t.len() ==> (#[trigger] t[k]).letter != 'Z',
    ensures
        reread_from(t, i, p) == t.skip(i),
    decreases t.len() - i,
{
    if i < t.len() {
        lemma_reread_same(t, i + 1, p);
        let c = t[i];
        assert(grid_cmd(c, p));
        assert(cmd_writable(c, p));
        assert(emit_at(t, i) || argc(c.letter) > 0) by {
            if argc(c.letter) == 0 && i > 0 {
                assert(c.letter != 'Z');
                assert(c.letter == 'z');
                assert(!(t[i].letter == 'z' && t[i - 1].letter == 'z'));
                assert(prev_at(t, i) == Some(t[i - 1].letter));
            }
        }
        assert(round_all(c.args, p) =~= c.args);
        assert(PCmd { letter: c.letter, args: round_all(c.args, p) } == c);
        assert(t.skip(i) =~= seq![c] + t.skip(i + 1));
    } else {
        assert(t.skip(i) =~= Seq::<PCmd>::empty());
    }
}

/// The optimized text of a path reads back: where a path's text reads as commands that,
/// made absolute, keep every coordinate within half the range held (with room for
/// rounding), its optimized text
/// parses as the optimized commands, letter for letter, with their numbers rounded (a
/// repeated close-path read once).
pub proof fn lemma_optimized_reads_back(d: Seq<char>, p: nat, cmds: Seq<PCmd>, n: Seq<PCmd>)
    requires
        sp_parse_path(d) == Some(cmds),
        cmds.len() > 0,
        normalize(cmds) == Some(n),
        coords_in_half(n),
    ensures
        sp_optimize_path(d, p) == Some(rewrite_path(n, p)),
        sp_parse_path(rewrite_path(n, p)) == Some(reread_from(optimized_cmds(n, p), 0, p)),
{
    lemma_parse_shaped(d);
    lemma_normalize_shaped(nstate_init(), cmds);
    let s0 = round_cmds(n, p);
    lemma_round_tame(n, p);
    let s1 = simplify_curves(s0, p);
    lemma_simplify_tame(RState { cx: 0, cy: 0, sx: 0, sy: 0 }, s0, p);
    let s2 = detect_shorthands(s1, p);
    lemma_detect_tame(DState { cx: 0, cy: 0, lc2: None, lq: None }, s1, p);
    let s3 = remove_redundant(s2, p);
    lemma_red_tame(RState { cx: 0, cy: 0, sx: 0, sy: 0 }, s2, false, p);
    let st = RState { cx: 0, cy: 0, sx: 0, sy: 0 };
    assert(rstate_ok(st));
    lemma_rel_writable(st, s3, p);
    lemma_written_reads_back(optimized_cmds(n, p), p);
}

/// What the optimized text of a path draws: where a path's text reads as commands that,
/// made absolute, keep every coordinate within half the range held (with room for
/// rounding), its optimized text reads back, made absolute, as exactly the path made
/// absolute with every number rounded to `p` places, curves whose control points lie (at
/// that precision) on the line to their end made lines, and lines that go nowhere, empty
/// subpaths and repeated close-paths dropped. Rounding errors do not add up along the path.
pub proof fn lemma_optimized_draws_same(d: Seq<char>, p: nat, cmds: Seq<PCmd>, n: Seq<PCmd>)
    requires
        sp_parse_path(d) == Some(cmds),
        cmds.len() > 0,
        normalize(cmds) == Some(n),
        coords_in_half(n),
    ensures
        sp_optimize_path(d, p) == Some(rewrite_path(n, p)),
        sp_parse_path(rewrite_path(n, p)) matches Some(back) && normalize(back) == normalize(
            remove_redundant(detect_shorthands(simplify_curves(round_cmds(n, p), p), p), p),
        ),
{
    lemma_optimized_reads_back(d, p, cmds, n);
    lemma_parse_shaped(d);
    lemma_normalize_shaped(nstate_init(), cmds);
    let z = RState { cx: 0, cy: 0, sx: 0, sy: 0 };
    let s0 = round_cmds(n, p);
    lemma_round_tame(n, p);
    lemma_round_grid(n, p);
    let s1 = simplify_curves(s0, p);
    lemma_simplify_tame(z, s0, p);
    lemma_simplify_grid(z, s0, p);
    let dz = DState { cx: 0, cy: 0, lc2: None, lq: None };
    let s2 = detect_shorthands(s1, p);
    lemma_detect_tame(dz, s1, p);
    lemma_detect_grid(dz, s1, p);
    let s3 = remove_redundant(s2, p);
    lemma_red_tame(z, s2, false, p);
    lemma_red_grid(z, s2, false, p);
    lemma_grid(0, 0, p);
    assert(states_agree(z, nstate_init()));
    lemma_rel_norm(z, nstate_init(), s3, p);
    lemma_rel_writable(z, s3, p);
    let t = optimized_cmds(n, p);
    assert(t == rel_from(z, s3));
    assert forall|k: int| 0 < k < t.len() implies !((#[trigger] t[k]).letter == 'z' && t[k
        - 1].letter == 'z') by {
        assert(!(s3[k].letter == 'Z' && s3[k - 1].letter == 'Z'));
        assert((t[k - 1].letter == 'z') == (s3[k - 1].letter == 'Z'));
    }
    lemma_reread_same(t, 0, p);
    assert(t.skip(0) =~= t);
}
} // verus!

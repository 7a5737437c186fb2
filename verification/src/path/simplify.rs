//! Geometric simplifications on absolute commands: straight curves become lines, curves
//! that continue the previous one smoothly become shorthands, lines that go nowhere go.
use vstd::prelude::*;

use super::cmds::{
    abs_letter, all_abs, copy_cmd, lemma_cmds_view_push, lemma_cmds_view_skip, mk2, mk4,
};
use super::grammar::{PCmd, PathCmd, argc, cmds_view, wf_cmd, wf_cmds};
use super::number::{
    approx_eq, approx_eq_exec, collinear, collinear_exec, in_bound, lemma_round_in_bound, round_to,
    round_to_exec,
};
use super::relative::RState;

verus! {

broadcast use vstd::std_specs::vec::group_vec_axioms;

/// Commands with every number rounded to `p` places (an arc's flags, 0 or 1, stay).
pub open spec fn round_cmds(cmds: Seq<PCmd>, p: nat) -> Seq<PCmd> {
    Seq::new(
        cmds.len(),
        |i: int| PCmd { letter: cmds[i].letter, args: Seq::new(cmds[i].args.len(), |j: int| round_to(cmds[i].args[j], p)) },
    )
}

/// The pen and the subpath start after a command: a move sets both; a close-path returns
/// the pen to the subpath start; a drawing command leaves the pen at its end point.
pub open spec fn pen_after(st: RState, c: PCmd) -> RState {
    let a = c.args;
    let l = c.letter;
    if l == 'M' {
        RState { cx: a[0], cy: a[1], sx: a[0], sy: a[1] }
    } else if l == 'L' || l == 'C' || l == 'S' || l == 'Q' || l == 'T' || l == 'A' {
        RState { cx: a[a.len() - 2], cy: a[a.len() - 1], ..st }
    } else if l == 'Z' {
        RState { cx: st.sx, cy: st.sy, ..st }
    } else {
        st
    }
}

/// A command with a straight curve made a line: a cubic or quadratic curve whose control
/// points lie, at precision `p`, on the line from the pen to its end point.
pub open spec fn straightened(st: RState, c: PCmd, p: nat) -> PCmd {
    let a = c.args;
    if c.letter == 'C' && collinear(st.cx, st.cy, a[0], a[1], a[4], a[5], p) && collinear(
        st.cx,
        st.cy,
        a[2],
        a[3],
        a[4],
        a[5],
        p,
    ) {
        PCmd { letter: 'L', args: seq![a[4], a[5]] }
    } else if c.letter == 'Q' && collinear(st.cx, st.cy, a[0], a[1], a[2], a[3], p) {
        PCmd { letter: 'L', args: seq![a[2], a[3]] }
    } else {
        c
    }
}

/// One command with straight curves made lines, and the pen after it.
pub open spec fn simplify_step(st: RState, c: PCmd, p: nat) -> (RState, PCmd) {
    (pen_after(st, c), straightened(st, c, p))
}

pub open spec fn simplify_from(st: RState, cmds: Seq<PCmd>, p: nat) -> Seq<PCmd>
    decreases cmds.len(),
{
    if cmds.len() == 0 {
        seq![]
    } else {
        let (st2, o) = simplify_step(st, cmds[0], p);
        seq![o] + simplify_from(st2, cmds.drop_first(), p)
    }
}

/// Cubic and quadratic curves whose control points lie on the line between their ends
/// (at precision `p`) become lines.
pub open spec fn simplify_curves(cmds: Seq<PCmd>, p: nat) -> Seq<PCmd> {
    simplify_from(RState { cx: 0, cy: 0, sx: 0, sy: 0 }, cmds, p)
}

/// The pen position and the last control point of a cubic and of a quadratic curve.
pub struct DState {
    pub cx: int,
    pub cy: int,
    pub lc2: Option<(int, int)>,
    pub lq: Option<(int, int)>,
}

/// Whether `(x, y)` is, at precision `p`, the mirror of the control point `cp` through
/// the pen position.
pub open spec fn mirrors(cp: Option<(int, int)>, cx: int, cy: int, x: int, y: int, p: nat) -> bool {
    match cp {
        Some((px, py)) => approx_eq(x, 2 * cx - px, p) && approx_eq(y, 2 * cy - py, p),
        None => false,
    }
}

/// One command with a smooth continuation written as a shorthand, and the state after it.
pub open spec fn detect_step(st: DState, c: PCmd, p: nat) -> (DState, PCmd) {
    let a = c.args;
    let l = c.letter;
    if l == 'C' {
        let out = if mirrors(st.lc2, st.cx, st.cy, a[0], a[1], p) {
            PCmd { letter: 'S', args: seq![a[2], a[3], a[4], a[5]] }
        } else {
            c
        };
        (DState { cx: a[4], cy: a[5], lc2: Some((a[2], a[3])), lq: None }, out)
    } else if l == 'Q' {
        let out = if mirrors(st.lq, st.cx, st.cy, a[0], a[1], p) {
            PCmd { letter: 'T', args: seq![a[2], a[3]] }
        } else {
            c
        };
        (DState { cx: a[2], cy: a[3], lc2: None, lq: Some((a[0], a[1])) }, out)
    } else if l == 'M' || l == 'L' {
        (DState { cx: a[0], cy: a[1], lc2: None, lq: None }, c)
    } else if l == 'A' {
        (DState { cx: a[5], cy: a[6], lc2: None, lq: None }, c)
    } else if l == 'Z' {
        (DState { lc2: None, lq: None, ..st }, c)
    } else {
        (st, c)
    }
}

pub open spec fn detect_from(st: DState, cmds: Seq<PCmd>, p: nat) -> Seq<PCmd>
    decreases cmds.len(),
{
    if cmds.len() == 0 {
        seq![]
    } else {
        let (st2, o) = detect_step(st, cmds[0], p);
        seq![o] + detect_from(st2, cmds.drop_first(), p)
    }
}

/// A cubic whose first control point mirrors the previous cubic's second one becomes S; a
/// quadratic whose control point mirrors the previous quadratic's becomes T.
pub open spec fn detect_shorthands(cmds: Seq<PCmd>, p: nat) -> Seq<PCmd> {
    detect_from(DState { cx: 0, cy: 0, lc2: None, lq: None }, cmds, p)
}

/// One command, or nothing for a line to the pen position, a move that another move
/// follows (an empty subpath) or a close-path right after a kept close-path; `next` is the
/// letter of the command after it, `after_z` whether the last command kept closed a path.
pub open spec fn red_step(st: RState, c: PCmd, next: Option<char>, after_z: bool, p: nat) -> (
    RState,
    Seq<PCmd>,
) {
    let a = c.args;
    if c.letter == 'L' && approx_eq(a[0], st.cx, p) && approx_eq(a[1], st.cy, p) {
        (st, seq![])
    } else if c.letter == 'M' && next == Some('M') {
        (st, seq![])
    } else if c.letter == 'Z' && after_z {
        (st, seq![])
    } else {
        (pen_after(st, c), seq![c])
    }
}

pub open spec fn next_letter(cmds: Seq<PCmd>) -> Option<char> {
    if cmds.len() > 1 {
        Some(cmds[1].letter)
    } else {
        None
    }
}

/// Whether the last command kept, if any, closed a path.
pub open spec fn ends_closed(o: Seq<PCmd>, after_z: bool) -> bool {
    if o.len() > 0 {
        o.last().letter == 'Z'
    } else {
        after_z
    }
}

pub open spec fn red_from(st: RState, cmds: Seq<PCmd>, after_z: bool, p: nat) -> Seq<PCmd>
    decreases cmds.len(),
{
    if cmds.len() == 0 {
        seq![]
    } else {
        let (st2, o) = red_step(st, cmds[0], next_letter(cmds), after_z, p);
        o + red_from(st2, cmds.drop_first(), ends_closed(o, after_z), p)
    }
}

/// Lines that end where the pen already is (at precision `p`) are dropped, and so are
/// moves that another move follows and close-paths right after a close-path.
pub open spec fn remove_redundant(cmds: Seq<PCmd>, p: nat) -> Seq<PCmd> {
    red_from(RState { cx: 0, cy: 0, sx: 0, sy: 0 }, cmds, false, p)
}

pub open spec fn abs_wf(s: Seq<PCmd>) -> bool {
    wf_cmds(s) && all_abs(s)
}

proof fn lemma_args_bound(c: &PathCmd)
    requires
        wf_cmd(c@),
    ensures
        c.args@.len() == argc(c.cmd),
        forall|j: int| 0 <= j < c.args@.len() ==> in_bound(#[trigger] c.args@[j] as int),
{
    assert forall|j: int| 0 <= j < c.args@.len() implies in_bound(#[trigger] c.args@[j] as int) by {
        assert(c@.args[j] == c.args@[j] as int);
    }
}

/// The pen and subpath start held as four integers.
pub open spec fn pen_of(t: (i128, i128, i128, i128)) -> RState {
    RState { cx: t.0 as int, cy: t.1 as int, sx: t.2 as int, sy: t.3 as int }
}

pub open spec fn pen_ok(t: (i128, i128, i128, i128)) -> bool {
    in_bound(t.0 as int) && in_bound(t.1 as int) && in_bound(t.2 as int) && in_bound(t.3 as int)
}

fn pen_after_exec(st: (i128, i128, i128, i128), c: &PathCmd) -> (r: (i128, i128, i128, i128))
    requires
        wf_cmd(c@),
        abs_letter(c.cmd),
        pen_ok(st),
    ensures
        pen_of(r) == pen_after(pen_of(st), c@),
        pen_ok(r),
{
    proof {
        lemma_args_bound(c);
    }
    let a = &c.args;
    let l = c.cmd;
    if l == 'M' {
        (a[0], a[1], a[0], a[1])
    } else if l == 'L' || l == 'C' || l == 'S' || l == 'Q' || l == 'T' || l == 'A' {
        (a[a.len() - 2], a[a.len() - 1], st.2, st.3)
    } else if l == 'Z' {
        (st.2, st.3, st.2, st.3)
    } else {
        st
    }
}

fn simplify_step_exec(st: (i128, i128, i128, i128), c: &PathCmd, p: u32) -> (r: (
    (i128, i128, i128, i128),
    PathCmd,
))
    requires
        wf_cmd(c@),
        abs_letter(c.cmd),
        pen_ok(st),
    ensures
        (pen_of(r.0), r.1@) == simplify_step(pen_of(st), c@, p as nat),
        pen_ok(r.0),
        wf_cmd(r.1@),
        abs_letter(r.1@.letter),
{
    proof {
        lemma_args_bound(c);
    }
    let (cx, cy, _sx, _sy) = st;
    let a = &c.args;
    let l = c.cmd;
    let st2 = pen_after_exec(st, c);
    if l == 'C' {
        if collinear_exec(cx, cy, a[0], a[1], a[4], a[5], p) && collinear_exec(
            cx,
            cy,
            a[2],
            a[3],
            a[4],
            a[5],
            p,
        ) {
            (st2, mk2('L', a[4], a[5]))
        } else {
            (st2, copy_cmd(c))
        }
    } else if l == 'Q' {
        if collinear_exec(cx, cy, a[0], a[1], a[2], a[3], p) {
            (st2, mk2('L', a[2], a[3]))
        } else {
            (st2, copy_cmd(c))
        }
    } else {
        (st2, copy_cmd(c))
    }
}

/// Straight curves become lines; the exec form of `simplify_curves`.
pub fn simplify_curves_exec(cmds: &Vec<PathCmd>, p: u32) -> (r: Vec<PathCmd>)
    requires
        abs_wf(cmds_view(cmds@)),
    ensures
        cmds_view(r@) == simplify_curves(cmds_view(cmds@), p as nat),
        abs_wf(cmds_view(r@)),
{
    let mut out: Vec<PathCmd> = Vec::new();
    let mut st: (i128, i128, i128, i128) = (0, 0, 0, 0);
    let mut i: usize = 0;
    let ghost input = cmds_view(cmds@);
    proof {
        assert(cmds_view(out@) =~= Seq::<PCmd>::empty());
        assert(input.skip(0) =~= input);
        assert(Seq::<PCmd>::empty() + simplify_curves(input, p as nat) =~= simplify_curves(
            input,
            p as nat,
        ));
    }
    while i < cmds.len()
        invariant
            0 <= i <= cmds@.len(),
            input == cmds_view(cmds@),
            abs_wf(input),
            pen_ok(st),
            abs_wf(cmds_view(out@)),
            simplify_curves(input, p as nat) == cmds_view(out@) + simplify_from(
                pen_of(st),
                input.skip(i as int),
                p as nat,
            ),
        decreases cmds@.len() - i,
    {
        proof {
            lemma_cmds_view_skip(cmds@, i as int);
            assert(input[i as int] == cmds@[i as int]@);
        }
        let (st2, o) = simplify_step_exec(st, &cmds[i], p);
        proof {
            lemma_cmds_view_push(out@, o);
            assert(cmds_view(out@) + (seq![o@] + simplify_from(pen_of(st2), input.skip(i + 1), p as nat))
                =~= cmds_view(out@).push(o@) + simplify_from(pen_of(st2), input.skip(i + 1), p as nat));
        }
        out.push(o);
        st = st2;
        i = i + 1;
    }
    proof {
        assert(input.skip(i as int) =~= Seq::<PCmd>::empty());
        assert(cmds_view(out@) + Seq::<PCmd>::empty() =~= cmds_view(out@));
    }
    out
}

pub struct DetSt {
    pub cx: i128,
    pub cy: i128,
    pub lc2: Option<(i128, i128)>,
    pub lq: Option<(i128, i128)>,
}

pub open spec fn dpt(p: Option<(i128, i128)>) -> Option<(int, int)> {
    match p {
        Some((a, b)) => Some((a as int, b as int)),
        None => None,
    }
}

pub open spec fn dpt_ok(p: Option<(i128, i128)>) -> bool {
    match p {
        Some((a, b)) => in_bound(a as int) && in_bound(b as int),
        None => true,
    }
}

impl View for DetSt {
    type V = DState;

    open spec fn view(&self) -> DState {
        DState { cx: self.cx as int, cy: self.cy as int, lc2: dpt(self.lc2), lq: dpt(self.lq) }
    }
}

pub open spec fn detst_ok(st: DetSt) -> bool {
    in_bound(st.cx as int) && in_bound(st.cy as int) && dpt_ok(st.lc2) && dpt_ok(st.lq)
}

fn mirrors_exec(cp: Option<(i128, i128)>, cx: i128, cy: i128, x: i128, y: i128, p: u32) -> (r:
    bool)
    requires
        dpt_ok(cp),
        in_bound(cx as int),
        in_bound(cy as int),
        in_bound(x as int),
        in_bound(y as int),
    ensures
        r == mirrors(dpt(cp), cx as int, cy as int, x as int, y as int, p as nat),
{
    match cp {
        Some((px, py)) => approx_eq_exec(x, 2 * cx - px, p) && approx_eq_exec(y, 2 * cy - py, p),
        None => false,
    }
}

fn detect_step_exec(st: &DetSt, c: &PathCmd, p: u32) -> (r: (DetSt, PathCmd))
    requires
        wf_cmd(c@),
        abs_letter(c.cmd),
        detst_ok(*st),
    ensures
        (r.0@, r.1@) == detect_step(st@, c@, p as nat),
        detst_ok(r.0),
        wf_cmd(r.1@),
        abs_letter(r.1@.letter),
{
    proof {
        lemma_args_bound(c);
    }
    let a = &c.args;
    let l = c.cmd;
    if l == 'C' {
        let out = if mirrors_exec(st.lc2, st.cx, st.cy, a[0], a[1], p) {
            mk4('S', a[2], a[3], a[4], a[5])
        } else {
            copy_cmd(c)
        };
        (DetSt { cx: a[4], cy: a[5], lc2: Some((a[2], a[3])), lq: None }, out)
    } else if l == 'Q' {
        let out = if mirrors_exec(st.lq, st.cx, st.cy, a[0], a[1], p) {
            mk2('T', a[2], a[3])
        } else {
            copy_cmd(c)
        };
        (DetSt { cx: a[2], cy: a[3], lc2: None, lq: Some((a[0], a[1])) }, out)
    } else if l == 'M' || l == 'L' {
        (DetSt { cx: a[0], cy: a[1], lc2: None, lq: None }, copy_cmd(c))
    } else if l == 'A' {
        (DetSt { cx: a[5], cy: a[6], lc2: None, lq: None }, copy_cmd(c))
    } else if l == 'Z' {
        (DetSt { cx: st.cx, cy: st.cy, lc2: None, lq: None }, copy_cmd(c))
    } else {
        (DetSt { cx: st.cx, cy: st.cy, lc2: st.lc2, lq: st.lq }, copy_cmd(c))
    }
}

/// Smooth continuations become shorthands; the exec form of `detect_shorthands`.
pub fn detect_shorthands_exec(cmds: &Vec<PathCmd>, p: u32) -> (r: Vec<PathCmd>)
    requires
        abs_wf(cmds_view(cmds@)),
    ensures
        cmds_view(r@) == detect_shorthands(cmds_view(cmds@), p as nat),
        abs_wf(cmds_view(r@)),
{
    let mut out: Vec<PathCmd> = Vec::new();
    let mut st = DetSt { cx: 0, cy: 0, lc2: None, lq: None };
    let mut i: usize = 0;
    let ghost input = cmds_view(cmds@);
    proof {
        assert(cmds_view(out@) =~= Seq::<PCmd>::empty());
        assert(input.skip(0) =~= input);
        assert(Seq::<PCmd>::empty() + detect_shorthands(input, p as nat) =~= detect_shorthands(
            input,
            p as nat,
        ));
    }
    while i < cmds.len()
        invariant
            0 <= i <= cmds@.len(),
            input == cmds_view(cmds@),
            abs_wf(input),
            detst_ok(st),
            abs_wf(cmds_view(out@)),
            detect_shorthands(input, p as nat) == cmds_view(out@) + detect_from(
                st@,
                input.skip(i as int),
                p as nat,
            ),
        decreases cmds@.len() - i,
    {
        proof {
            lemma_cmds_view_skip(cmds@, i as int);
            assert(input[i as int] == cmds@[i as int]@);
        }
        let (st2, o) = detect_step_exec(&st, &cmds[i], p);
        proof {
            lemma_cmds_view_push(out@, o);
            assert(cmds_view(out@) + (seq![o@] + detect_from(st2@, input.skip(i + 1), p as nat))
                =~= cmds_view(out@).push(o@) + detect_from(st2@, input.skip(i + 1), p as nat));
        }
        out.push(o);
        st = st2;
        i = i + 1;
    }
    proof {
        assert(input.skip(i as int) =~= Seq::<PCmd>::empty());
        assert(cmds_view(out@) + Seq::<PCmd>::empty() =~= cmds_view(out@));
    }
    out
}

/// Lines to the pen position and moves that another move follows are dropped; the exec
/// form of `remove_redundant`.
pub fn remove_redundant_exec(cmds: &Vec<PathCmd>, p: u32) -> (r: Vec<PathCmd>)
    requires
        abs_wf(cmds_view(cmds@)),
    ensures
        cmds_view(r@) == remove_redundant(cmds_view(cmds@), p as nat),
        abs_wf(cmds_view(r@)),
{
    let mut out: Vec<PathCmd> = Vec::new();
    let mut st: (i128, i128, i128, i128) = (0, 0, 0, 0);
    let mut after_z = false;
    let mut i: usize = 0;
    let ghost input = cmds_view(cmds@);
    proof {
        assert(cmds_view(out@) =~= Seq::<PCmd>::empty());
        assert(input.skip(0) =~= input);
        assert(Seq::<PCmd>::empty() + remove_redundant(input, p as nat) =~= remove_redundant(
            input,
            p as nat,
        ));
    }
    while i < cmds.len()
        invariant
            0 <= i <= cmds@.len(),
            input == cmds_view(cmds@),
            abs_wf(input),
            pen_ok(st),
            abs_wf(cmds_view(out@)),
            after_z == ends_closed(cmds_view(out@), false),
            remove_redundant(input, p as nat) == cmds_view(out@) + red_from(
                pen_of(st),
                input.skip(i as int),
                after_z,
                p as nat,
            ),
        decreases cmds@.len() - i,
    {
        proof {
            lemma_cmds_view_skip(cmds@, i as int);
            assert(input[i as int] == cmds@[i as int]@);
        }
        let c = &cmds[i];
        proof {
            lemma_args_bound(c);
        }
        let a = &c.args;
        let l = c.cmd;
        let next_is_move = i + 1 < cmds.len() && cmds[i + 1].cmd == 'M';
        let ghost sk = input.skip(i as int);
        proof {
            assert(sk[0] == input[i as int]);
            assert(sk.drop_first() =~= input.skip(i + 1));
            if i + 1 < cmds.len() {
                lemma_cmds_view_skip(cmds@, i + 1);
                assert(sk[1] == input[i + 1]);
                assert(input[i + 1] == cmds@[i + 1]@);
            }
            assert(next_is_move == (next_letter(sk) == Some('M')));
        }
        if (l == 'L' && approx_eq_exec(a[0], st.0, p) && approx_eq_exec(a[1], st.1, p)) || (l
            == 'M' && next_is_move) || (l == 'Z' && after_z) {
            proof {
                assert(red_from(pen_of(st), sk, after_z, p as nat) == red_from(
                    pen_of(st),
                    input.skip(i + 1),
                    after_z,
                    p as nat,
                ));
            }
        } else {
            let st2 = pen_after_exec(st, c);
            let o = copy_cmd(c);
            proof {
                assert(red_step(pen_of(st), input[i as int], next_letter(sk), after_z, p as nat) == (
                pen_of(st2), seq![o@]));
                lemma_cmds_view_push(out@, o);
                assert(ends_closed(seq![o@], after_z) == (l == 'Z'));
                assert(cmds_view(out@) + (seq![o@] + red_from(pen_of(st2), input.skip(i + 1), l == 'Z', p as nat))
                    =~= cmds_view(out@).push(o@) + red_from(pen_of(st2), input.skip(i + 1), l == 'Z', p as nat));
                assert(cmds_view(out@).push(o@).last() == o@);
            }
            out.push(o);
            st = st2;
            after_z = l == 'Z';
        }
        i = i + 1;
    }
    proof {
        assert(input.skip(i as int) =~= Seq::<PCmd>::empty());
        assert(cmds_view(out@) + Seq::<PCmd>::empty() =~= cmds_view(out@));
    }
    out
}

/// Every number rounded; the exec form of `round_cmds`.
pub fn round_cmds_exec(cmds: &Vec<PathCmd>, p: u32) -> (r: Vec<PathCmd>)
    requires
        abs_wf(cmds_view(cmds@)),
    ensures
        cmds_view(r@) == round_cmds(cmds_view(cmds@), p as nat),
        abs_wf(cmds_view(r@)),
{
    let ghost input = cmds_view(cmds@);
    let ghost target = round_cmds(input, p as nat);
    let mut out: Vec<PathCmd> = Vec::new();
    let mut i: usize = 0;
    while i < cmds.len()
        invariant
            0 <= i <= cmds@.len(),
            input == cmds_view(cmds@),
            target == round_cmds(input, p as nat),
            abs_wf(input),
            cmds_view(out@) == target.take(i as int),
            abs_wf(cmds_view(out@)),
        decreases cmds@.len() - i,
    {
        let c = &cmds[i];
        proof {
            lemma_cmds_view_skip(cmds@, i as int);
            assert(input[i as int] == c@);
            lemma_args_bound(c);
        }
        let mut args: Vec<i128> = Vec::new();
        let mut k: usize = 0;
        while k < c.args.len()
            invariant
                0 <= k <= c.args@.len(),
                c.args@.len() == argc(c.cmd),
                forall|j: int| 0 <= j < c.args@.len() ==> in_bound(#[trigger] c.args@[j] as int),
                args@.len() == k,
                forall|j: int| 0 <= j < k ==> #[trigger] args@[j] as int == round_to(c.args@[j] as int, p as nat),
                forall|j: int| 0 <= j < k ==> in_bound(#[trigger] args@[j] as int),
            decreases c.args@.len() - k,
        {
            proof {
                lemma_round_in_bound(c.args@[k as int] as int, p as nat);
            }
            let v = round_to_exec(c.args[k], p);
            args.push(v);
            k += 1;
        }
        let o = PathCmd { cmd: c.cmd, args };
        proof {
            assert(o@.args =~= target[i as int].args);
            assert(o@ == target[i as int]);
            assert(wf_cmd(o@));
            lemma_cmds_view_push(out@, o);
            assert(target.take(i + 1) =~= target.take(i as int).push(o@));
        }
        out.push(o);
        i += 1;
    }
    proof {
        assert(target.take(i as int) =~= target);
    }
    out
}

/// The pen and subpath start after the commands, from `st`.
pub open spec fn pen_through(st: RState, cmds: Seq<PCmd>) -> RState
    decreases cmds.len(),
{
    if cmds.len() == 0 {
        st
    } else {
        pen_through(pen_after(st, cmds[0]), cmds.drop_first())
    }
}

proof fn lemma_simplify_at(st: RState, cmds: Seq<PCmd>, p: nat, k: int)
    requires
        0 <= k < cmds.len(),
    ensures
        simplify_from(st, cmds, p).len() == cmds.len(),
        simplify_from(st, cmds, p)[k] == straightened(pen_through(st, cmds.take(k)), cmds[k], p),
    decreases cmds.len(),
{
    let rest = cmds.drop_first();
    let st2 = pen_after(st, cmds[0]);
    if k == 0 {
        if rest.len() > 0 {
            lemma_simplify_at(st2, rest, p, 0);
        } else {
            assert(simplify_from(st2, rest, p) =~= Seq::<PCmd>::empty());
        }
        assert(cmds.take(0) =~= Seq::<PCmd>::empty());
    } else {
        lemma_simplify_at(st2, rest, p, k - 1);
        assert(cmds.take(k)[0] == cmds[0]);
        assert(cmds.take(k).drop_first() =~= rest.take(k - 1));
        assert(rest[k - 1] == cmds[k]);
    }
}

/// Straightening changes only flat curves, and every flat curve: the commands keep their
/// count; a cubic both of whose control points lie (at precision `p`) on the line from the
/// pen to its end, or a quadratic whose control point does, becomes a line to the same end;
/// every other command comes out as it went in.
pub proof fn lemma_straightens_flat_curves_only(cmds: Seq<PCmd>, p: nat, k: int)
    requires
        0 <= k < cmds.len(),
    ensures
        simplify_curves(cmds, p).len() == cmds.len(),
        ({
            let c = cmds[k];
            let a = c.args;
            let o = simplify_curves(cmds, p)[k];
            let pen = pen_through(RState { cx: 0, cy: 0, sx: 0, sy: 0 }, cmds.take(k));
            let flat_cubic = c.letter == 'C' && collinear(pen.cx, pen.cy, a[0], a[1], a[4], a[5], p)
                && collinear(pen.cx, pen.cy, a[2], a[3], a[4], a[5], p);
            let flat_quad = c.letter == 'Q' && collinear(pen.cx, pen.cy, a[0], a[1], a[2], a[3], p);
            &&& flat_cubic ==> o == PCmd { letter: 'L', args: seq![a[4], a[5]] }
            &&& flat_quad ==> o == PCmd { letter: 'L', args: seq![a[2], a[3]] }
            &&& !flat_cubic && !flat_quad ==> o == c
        }),
{
    lemma_simplify_at(RState { cx: 0, cy: 0, sx: 0, sy: 0 }, cmds, p, k);
}

proof fn lemma_pen_through_add(st: RState, a: Seq<PCmd>, b: Seq<PCmd>)
    ensures
        pen_through(st, a + b) == pen_through(pen_through(st, a), b),
    decreases a.len(),
{
    if a.len() == 0 {
        assert(a + b =~= b);
    } else {
        assert((a + b)[0] == a[0]);
        assert((a + b).drop_first() =~= a.drop_first() + b);
        lemma_pen_through_add(pen_after(st, a[0]), a.drop_first(), b);
    }
}

/// A close-path takes the pen back to where its subpath began: after commands whose last
/// move goes to `(x, y)` and that end with a close-path, the pen is at `(x, y)`; and a move
/// puts the pen at its point.
pub proof fn lemma_close_returns_to_move(
    st: RState,
    pre: Seq<PCmd>,
    x: int,
    y: int,
    rest: Seq<PCmd>,
)
    requires
        forall|i: int| 0 <= i < rest.len() ==> (#[trigger] rest[i]).letter != 'M',
    ensures
        pen_through(st, pre + seq![PCmd { letter: 'M', args: seq![x, y] }]).cx == x,
        pen_through(st, pre + seq![PCmd { letter: 'M', args: seq![x, y] }]).cy == y,
        pen_through(st, pre + seq![PCmd { letter: 'M', args: seq![x, y] }] + rest + seq![
            PCmd { letter: 'Z', args: seq![] },
        ]).cx == x,
        pen_through(st, pre + seq![PCmd { letter: 'M', args: seq![x, y] }] + rest + seq![
            PCmd { letter: 'Z', args: seq![] },
        ]).cy == y,
{
    let mv = seq![PCmd { letter: 'M', args: seq![x, y] }];
    let z = seq![PCmd { letter: 'Z', args: seq![] }];
    lemma_pen_through_add(st, pre, mv);
    let s1 = pen_through(st, pre + mv);
    assert(mv.drop_first() =~= Seq::<PCmd>::empty());
    let p0 = pen_through(st, pre);
    assert(pen_through(pen_after(p0, mv[0]), mv.drop_first()) == pen_after(p0, mv[0]));
    assert(s1 == pen_after(p0, mv[0]));
    lemma_pen_through_add(st, pre + mv, rest);
    lemma_pen_through_add(st, pre + mv + rest, z);
    lemma_start_kept_any(s1, rest);
    let s2 = pen_through(s1, rest);
    assert(z.drop_first() =~= Seq::<PCmd>::empty());
    assert(pen_through(pen_after(s2, z[0]), z.drop_first()) == pen_after(s2, z[0]));
    assert(pen_through(s2, z) == pen_after(s2, z[0]));
}

/// Commands other than a move keep the subpath start.
proof fn lemma_start_kept_any(st: RState, rest: Seq<PCmd>)
    requires
        forall|i: int| 0 <= i < rest.len() ==> (#[trigger] rest[i]).letter != 'M',
    ensures
        pen_through(st, rest).sx == st.sx,
        pen_through(st, rest).sy == st.sy,
    decreases rest.len(),
{
    if rest.len() > 0 {
        assert(rest[0].letter != 'M');
        assert forall|i: int| 0 <= i < rest.drop_first().len() implies (#[trigger] rest.drop_first()[i]).letter != 'M' by {
            assert(rest.drop_first()[i] == rest[i + 1]);
        }
        lemma_start_kept_any(pen_after(st, rest[0]), rest.drop_first());
    }
}

} // verus!

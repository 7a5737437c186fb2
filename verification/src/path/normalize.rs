//! Rewriting every command in absolute form, with the shorthands S and T written out.
use vstd::prelude::*;

use super::cmds::{all_abs, all_in_bound, args_in_bound, copy_cmd, lemma_cmds_view_push, lemma_cmds_view_skip, mk0, mk2, mk4, mk6, mk7};
use super::grammar::{PCmd, PathCmd, argc, cmds_view, wf_cmd, wf_cmds};
use super::number::in_bound;
use super::parse::cons_opt;

verus! {

broadcast use vstd::std_specs::vec::group_vec_axioms;

/// The pen position, the start of the current subpath, and the last control points of a
/// cubic and of a quadratic curve where the previous command was one.
pub struct NState {
    pub cx: int,
    pub cy: int,
    pub sx: int,
    pub sy: int,
    pub lc: Option<(int, int)>,
    pub lq: Option<(int, int)>,
}

pub open spec fn nstate_init() -> NState {
    NState { cx: 0, cy: 0, sx: 0, sy: 0, lc: None, lq: None }
}

/// The control point that a shorthand curve implies: the last one mirrored through the
/// pen position, or the pen position itself.
pub open spec fn reflect(cp: Option<(int, int)>, cx: int, cy: int) -> (int, int) {
    match cp {
        Some((a, b)) => (2 * cx - a, 2 * cy - b),
        None => (cx, cy),
    }
}

pub open spec fn pen(st: NState, cx: int, cy: int) -> NState {
    NState { cx, cy, lc: None, lq: None, ..st }
}

/// One command in absolute form, and the state after it.
pub open spec fn norm_step(st: NState, c: PCmd) -> (NState, PCmd) {
    let a = c.args;
    let l = c.letter;
    if l == 'M' {
        (NState { cx: a[0], cy: a[1], sx: a[0], sy: a[1], lc: None, lq: None }, c)
    } else if l == 'm' {
        let (x, y) = (st.cx + a[0], st.cy + a[1]);
        (NState { cx: x, cy: y, sx: x, sy: y, lc: None, lq: None }, PCmd { letter: 'M', args: seq![x, y] })
    } else if l == 'L' {
        (pen(st, a[0], a[1]), c)
    } else if l == 'l' {
        let (x, y) = (st.cx + a[0], st.cy + a[1]);
        (pen(st, x, y), PCmd { letter: 'L', args: seq![x, y] })
    } else if l == 'H' {
        (pen(st, a[0], st.cy), PCmd { letter: 'L', args: seq![a[0], st.cy] })
    } else if l == 'h' {
        let x = st.cx + a[0];
        (pen(st, x, st.cy), PCmd { letter: 'L', args: seq![x, st.cy] })
    } else if l == 'V' {
        (pen(st, st.cx, a[0]), PCmd { letter: 'L', args: seq![st.cx, a[0]] })
    } else if l == 'v' {
        let y = st.cy + a[0];
        (pen(st, st.cx, y), PCmd { letter: 'L', args: seq![st.cx, y] })
    } else if l == 'C' {
        (NState { cx: a[4], cy: a[5], lc: Some((a[2], a[3])), lq: None, ..st }, c)
    } else if l == 'c' {
        let b = seq![
            st.cx + a[0],
            st.cy + a[1],
            st.cx + a[2],
            st.cy + a[3],
            st.cx + a[4],
            st.cy + a[5],
        ];
        (
            NState { cx: b[4], cy: b[5], lc: Some((b[2], b[3])), lq: None, ..st },
            PCmd { letter: 'C', args: b },
        )
    } else if l == 'S' {
        let (p1x, p1y) = reflect(st.lc, st.cx, st.cy);
        (
            NState { cx: a[2], cy: a[3], lc: Some((a[0], a[1])), lq: None, ..st },
            PCmd { letter: 'C', args: seq![p1x, p1y, a[0], a[1], a[2], a[3]] },
        )
    } else if l == 's' {
        let (p1x, p1y) = reflect(st.lc, st.cx, st.cy);
        let b = seq![p1x, p1y, st.cx + a[0], st.cy + a[1], st.cx + a[2], st.cy + a[3]];
        (
            NState { cx: b[4], cy: b[5], lc: Some((b[2], b[3])), lq: None, ..st },
            PCmd { letter: 'C', args: b },
        )
    } else if l == 'Q' {
        (NState { cx: a[2], cy: a[3], lc: None, lq: Some((a[0], a[1])), ..st }, c)
    } else if l == 'q' {
        let b = seq![st.cx + a[0], st.cy + a[1], st.cx + a[2], st.cy + a[3]];
        (
            NState { cx: b[2], cy: b[3], lc: None, lq: Some((b[0], b[1])), ..st },
            PCmd { letter: 'Q', args: b },
        )
    } else if l == 'T' {
        let (px, py) = reflect(st.lq, st.cx, st.cy);
        (
            NState { cx: a[0], cy: a[1], lc: None, lq: Some((px, py)), ..st },
            PCmd { letter: 'Q', args: seq![px, py, a[0], a[1]] },
        )
    } else if l == 't' {
        let (px, py) = reflect(st.lq, st.cx, st.cy);
        let (x, y) = (st.cx + a[0], st.cy + a[1]);
        (
            NState { cx: x, cy: y, lc: None, lq: Some((px, py)), ..st },
            PCmd { letter: 'Q', args: seq![px, py, x, y] },
        )
    } else if l == 'A' {
        (pen(st, a[5], a[6]), c)
    } else if l == 'a' {
        let (x, y) = (st.cx + a[5], st.cy + a[6]);
        (pen(st, x, y), PCmd { letter: 'A', args: seq![a[0], a[1], a[2], a[3], a[4], x, y] })
    } else if l == 'Z' || l == 'z' {
        (pen(st, st.sx, st.sy), PCmd { letter: 'Z', args: seq![] })
    } else {
        (st, c)
    }
}

/// The commands from `st` on in absolute form; `None` where a coordinate leaves the range
/// that is held.
pub open spec fn normalize_from(st: NState, cmds: Seq<PCmd>) -> Option<Seq<PCmd>>
    decreases cmds.len(),
{
    if cmds.len() == 0 {
        Some(seq![])
    } else {
        let (st2, o) = norm_step(st, cmds[0]);
        if args_in_bound(o.args) {
            cons_opt(seq![o], normalize_from(st2, cmds.drop_first()))
        } else {
            None
        }
    }
}

pub open spec fn normalize(cmds: Seq<PCmd>) -> Option<Seq<PCmd>> {
    normalize_from(nstate_init(), cmds)
}

pub open spec fn pt_in_bound(p: Option<(int, int)>) -> bool {
    match p {
        Some((a, b)) => in_bound(a) && in_bound(b),
        None => true,
    }
}

pub open spec fn nstate_ok(st: NState) -> bool {
    in_bound(st.cx) && in_bound(st.cy) && in_bound(st.sx) && in_bound(st.sy) && pt_in_bound(st.lc)
        && pt_in_bound(st.lq)
}

pub struct NormSt {
    pub cx: i128,
    pub cy: i128,
    pub sx: i128,
    pub sy: i128,
    pub lc: Option<(i128, i128)>,
    pub lq: Option<(i128, i128)>,
}

pub open spec fn opt_pt(p: Option<(i128, i128)>) -> Option<(int, int)> {
    match p {
        Some((a, b)) => Some((a as int, b as int)),
        None => None,
    }
}

impl View for NormSt {
    type V = NState;

    open spec fn view(&self) -> NState {
        NState {
            cx: self.cx as int,
            cy: self.cy as int,
            sx: self.sx as int,
            sy: self.sy as int,
            lc: opt_pt(self.lc),
            lq: opt_pt(self.lq),
        }
    }
}

fn reflect_exec(cp: Option<(i128, i128)>, cx: i128, cy: i128) -> (r: (i128, i128))
    requires
        pt_in_bound(opt_pt(cp)),
        in_bound(cx as int),
        in_bound(cy as int),
    ensures
        (r.0 as int, r.1 as int) == reflect(opt_pt(cp), cx as int, cy as int),
{
    match cp {
        Some((a, b)) => (2 * cx - a, 2 * cy - b),
        None => (cx, cy),
    }
}

/// One command in absolute form; the exec form of `norm_step`.
fn norm_step_exec(st: &NormSt, c: &PathCmd) -> (r: (NormSt, PathCmd))
    requires
        wf_cmd(c@),
        nstate_ok(st@),
    ensures
        (r.0@, r.1@) == norm_step(st@, c@),
        args_in_bound(r.1@.args) ==> nstate_ok(r.0@),
        r.1@.args.len() == argc(r.1@.letter),
        r.1@.letter == 'M' || r.1@.letter == 'L' || r.1@.letter == 'C' || r.1@.letter == 'Q'
            || r.1@.letter == 'A' || r.1@.letter == 'Z',
{
    let l = c.cmd;
    let a = &c.args;
    proof {
        assert forall|j: int| 0 <= j < a@.len() implies in_bound(#[trigger] a@[j] as int) by {
            assert(c@.args[j] == a@[j] as int);
        }
    }
    let cx = st.cx;
    let cy = st.cy;
    if l == 'M' {
        (NormSt { cx: a[0], cy: a[1], sx: a[0], sy: a[1], lc: None, lq: None }, copy_cmd(c))
    } else if l == 'm' {
        let x = cx + a[0];
        let y = cy + a[1];
        (NormSt { cx: x, cy: y, sx: x, sy: y, lc: None, lq: None }, mk2('M', x, y))
    } else if l == 'L' {
        (NormSt { cx: a[0], cy: a[1], sx: st.sx, sy: st.sy, lc: None, lq: None }, copy_cmd(c))
    } else if l == 'l' {
        let x = cx + a[0];
        let y = cy + a[1];
        (NormSt { cx: x, cy: y, sx: st.sx, sy: st.sy, lc: None, lq: None }, mk2('L', x, y))
    } else if l == 'H' {
        (NormSt { cx: a[0], cy, sx: st.sx, sy: st.sy, lc: None, lq: None }, mk2('L', a[0], cy))
    } else if l == 'h' {
        let x = cx + a[0];
        (NormSt { cx: x, cy, sx: st.sx, sy: st.sy, lc: None, lq: None }, mk2('L', x, cy))
    } else if l == 'V' {
        (NormSt { cx, cy: a[0], sx: st.sx, sy: st.sy, lc: None, lq: None }, mk2('L', cx, a[0]))
    } else if l == 'v' {
        let y = cy + a[0];
        (NormSt { cx, cy: y, sx: st.sx, sy: st.sy, lc: None, lq: None }, mk2('L', cx, y))
    } else if l == 'C' {
        (
            NormSt { cx: a[4], cy: a[5], sx: st.sx, sy: st.sy, lc: Some((a[2], a[3])), lq: None },
            copy_cmd(c),
        )
    } else if l == 'c' {
        let o = mk6('C', cx + a[0], cy + a[1], cx + a[2], cy + a[3], cx + a[4], cy + a[5]);
        (
            NormSt {
                cx: cx + a[4],
                cy: cy + a[5],
                sx: st.sx,
                sy: st.sy,
                lc: Some((cx + a[2], cy + a[3])),
                lq: None,
            },
            o,
        )
    } else if l == 'S' {
        let (p1x, p1y) = reflect_exec(st.lc, cx, cy);
        (
            NormSt { cx: a[2], cy: a[3], sx: st.sx, sy: st.sy, lc: Some((a[0], a[1])), lq: None },
            mk6('C', p1x, p1y, a[0], a[1], a[2], a[3]),
        )
    } else if l == 's' {
        let (p1x, p1y) = reflect_exec(st.lc, cx, cy);
        let o = mk6('C', p1x, p1y, cx + a[0], cy + a[1], cx + a[2], cy + a[3]);
        (
            NormSt {
                cx: cx + a[2],
                cy: cy + a[3],
                sx: st.sx,
                sy: st.sy,
                lc: Some((cx + a[0], cy + a[1])),
                lq: None,
            },
            o,
        )
    } else if l == 'Q' {
        (
            NormSt { cx: a[2], cy: a[3], sx: st.sx, sy: st.sy, lc: None, lq: Some((a[0], a[1])) },
            copy_cmd(c),
        )
    } else if l == 'q' {
        let o = mk4('Q', cx + a[0], cy + a[1], cx + a[2], cy + a[3]);
        (
            NormSt {
                cx: cx + a[2],
                cy: cy + a[3],
                sx: st.sx,
                sy: st.sy,
                lc: None,
                lq: Some((cx + a[0], cy + a[1])),
            },
            o,
        )
    } else if l == 'T' {
        let (px, py) = reflect_exec(st.lq, cx, cy);
        (
            NormSt { cx: a[0], cy: a[1], sx: st.sx, sy: st.sy, lc: None, lq: Some((px, py)) },
            mk4('Q', px, py, a[0], a[1]),
        )
    } else if l == 't' {
        let (px, py) = reflect_exec(st.lq, cx, cy);
        let x = cx + a[0];
        let y = cy + a[1];
        (
            NormSt { cx: x, cy: y, sx: st.sx, sy: st.sy, lc: None, lq: Some((px, py)) },
            mk4('Q', px, py, x, y),
        )
    } else if l == 'A' {
        (NormSt { cx: a[5], cy: a[6], sx: st.sx, sy: st.sy, lc: None, lq: None }, copy_cmd(c))
    } else if l == 'a' {
        let x = cx + a[5];
        let y = cy + a[6];
        (
            NormSt { cx: x, cy: y, sx: st.sx, sy: st.sy, lc: None, lq: None },
            mk7('A', a[0], a[1], a[2], a[3], a[4], x, y),
        )
    } else {
        (NormSt { cx: st.sx, cy: st.sy, sx: st.sx, sy: st.sy, lc: None, lq: None }, mk0('Z'))
    }
}

/// All commands in absolute form: H and V become L, S becomes C, T becomes Q, and
/// relative commands absolute. `None` where a coordinate leaves the range that is held.
pub fn normalize_to_absolute(cmds: &Vec<PathCmd>) -> (r: Option<Vec<PathCmd>>)
    requires
        wf_cmds(cmds_view(cmds@)),
    ensures
        r matches Some(v) ==> normalize(cmds_view(cmds@)) == Some(cmds_view(v@)) && wf_cmds(
            cmds_view(v@),
        ) && all_abs(cmds_view(v@)),
        r is None ==> normalize(cmds_view(cmds@)) is None,
{
    let mut out: Vec<PathCmd> = Vec::new();
    let mut st = NormSt { cx: 0, cy: 0, sx: 0, sy: 0, lc: None, lq: None };
    let mut i: usize = 0;
    let ghost input = cmds_view(cmds@);
    proof {
        assert(cmds_view(out@) =~= Seq::<PCmd>::empty());
        assert(input.skip(0) =~= input);
        match normalize(input) {
            Some(cs) => {
                assert(Seq::<PCmd>::empty() + cs =~= cs);
            },
            None => {},
        }
    }
    while i < cmds.len()
        invariant
            0 <= i <= cmds@.len(),
            input == cmds_view(cmds@),
            wf_cmds(input),
            nstate_ok(st@),
            wf_cmds(cmds_view(out@)),
            all_abs(cmds_view(out@)),
            normalize(input) == cons_opt(cmds_view(out@), normalize_from(st@, input.skip(i as int))),
        decreases cmds@.len() - i,
    {
        proof {
            lemma_cmds_view_skip(cmds@, i as int);
            assert(input[i as int] == cmds@[i as int]@);
        }
        let (st2, o) = norm_step_exec(&st, &cmds[i]);
        if !all_in_bound(&o.args) {
            return None;
        }
        proof {
            assert(wf_cmd(o@));
            lemma_cmds_view_push(out@, o);
            match normalize_from(st2@, input.skip(i + 1)) {
                Some(rest) => {
                    assert(cmds_view(out@) + (seq![o@] + rest) =~= cmds_view(out@).push(o@)
                        + rest);
                },
                None => {},
            }
        }
        out.push(o);
        st = st2;
        i = i + 1;
    }
    proof {
        assert(input.skip(i as int) =~= Seq::<PCmd>::empty());
        assert(cmds_view(out@) + Seq::<PCmd>::empty() =~= cmds_view(out@));
    }
    Some(out)
}

} // verus!

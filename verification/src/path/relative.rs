//! Choosing, command by command, the shorter of the absolute and the relative form.
use vstd::prelude::*;

use super::cmds::{abs_letter, copy_cmd, lemma_args_view_push, lemma_cmds_view_push, lemma_cmds_view_skip, mk0, mk1, mk2, mk7};
use super::grammar::{PCmd, PathCmd, args_view, cmds_view, wf_cmd};
use super::number::{BOUND, SCALE, abs, format_num, format_num_exec, in_bound};
use super::simplify::abs_wf;

verus! {

broadcast use vstd::std_specs::vec::group_vec_axioms;

/// The length of a coordinate's text.
pub open spec fn flen(v: int) -> int {
    format_num(v).len() as int
}

/// The total length of the texts of some coordinates.
pub open spec fn flen_sum(s: Seq<int>) -> int
    decreases s.len(),
{
    if s.len() == 0 {
        0
    } else {
        flen_sum(s.drop_last()) + flen(s.last())
    }
}

/// Coordinates made relative to the pen position: x values (even places) less `cx`, y
/// values less `cy`.
pub open spec fn rel_args(a: Seq<int>, cx: int, cy: int) -> Seq<int> {
    Seq::new(
        a.len(),
        |j: int|
            if j % 2 == 0 {
                a[j] - cx
            } else {
                a[j] - cy
            },
    )
}

pub open spec fn lower(c: char) -> char {
    if c == 'C' {
        'c'
    } else if c == 'S' {
        's'
    } else if c == 'Q' {
        'q'
    } else if c == 'T' {
        't'
    } else {
        c
    }
}

/// The pen position and the start of the current subpath.
pub struct RState {
    pub cx: int,
    pub cy: int,
    pub sx: int,
    pub sy: int,
}

/// One absolute command in its shorter form, and the state after it. Relative forms win
/// only when strictly shorter, but a line along an axis always becomes h/v when its
/// relative text is no longer, and a first move stays absolute.
pub open spec fn rel_step(st: RState, c: PCmd) -> (RState, PCmd) {
    let a = c.args;
    let l = c.letter;
    if l == 'M' {
        let (x, y) = (a[0], a[1]);
        let (rx, ry) = (x - st.cx, y - st.cy);
        let out = if flen(rx) + flen(ry) < flen(x) + flen(y) && !(st.cx == 0 && st.cy == 0) {
            PCmd { letter: 'm', args: seq![rx, ry] }
        } else {
            c
        };
        (RState { cx: x, cy: y, sx: x, sy: y }, out)
    } else if l == 'L' {
        let (x, y) = (a[0], a[1]);
        let (rx, ry) = (x - st.cx, y - st.cy);
        let out = if ry == 0 {
            if flen(rx) <= flen(x) {
                PCmd { letter: 'h', args: seq![rx] }
            } else {
                PCmd { letter: 'H', args: seq![x] }
            }
        } else if rx == 0 {
            if flen(ry) <= flen(y) {
                PCmd { letter: 'v', args: seq![ry] }
            } else {
                PCmd { letter: 'V', args: seq![y] }
            }
        } else if flen(rx) + flen(ry) < flen(x) + flen(y) {
            PCmd { letter: 'l', args: seq![rx, ry] }
        } else {
            c
        };
        (RState { cx: x, cy: y, ..st }, out)
    } else if l == 'C' || l == 'S' || l == 'Q' || l == 'T' {
        let r = rel_args(a, st.cx, st.cy);
        let out = if flen_sum(r) < flen_sum(a) {
            PCmd { letter: lower(l), args: r }
        } else {
            c
        };
        (RState { cx: a[a.len() - 2], cy: a[a.len() - 1], ..st }, out)
    } else if l == 'A' {
        let (rx, ry) = (a[5] - st.cx, a[6] - st.cy);
        let out = if flen(rx) + flen(ry) < flen(a[5]) + flen(a[6]) {
            PCmd { letter: 'a', args: seq![a[0], a[1], a[2], a[3], a[4], rx, ry] }
        } else {
            c
        };
        (RState { cx: a[5], cy: a[6], ..st }, out)
    } else if l == 'Z' {
        (RState { cx: st.sx, cy: st.sy, ..st }, PCmd { letter: 'z', args: seq![] })
    } else {
        (st, c)
    }
}

pub open spec fn rel_from(st: RState, cmds: Seq<PCmd>) -> Seq<PCmd>
    decreases cmds.len(),
{
    if cmds.len() == 0 {
        seq![]
    } else {
        let (st2, o) = rel_step(st, cmds[0]);
        seq![o] + rel_from(st2, cmds.drop_first())
    }
}

/// Each absolute command in its shorter form.
pub open spec fn abs_to_rel(cmds: Seq<PCmd>) -> Seq<PCmd> {
    rel_from(RState { cx: 0, cy: 0, sx: 0, sy: 0 }, cmds)
}

/// A command whose numbers are within twice the bound, as relative forms leave them.
pub open spec fn small_cmd(c: PCmd) -> bool {
    forall|j: int| 0 <= j < c.args.len() ==> abs(#[trigger] c.args[j]) <= 2 * BOUND
}

pub open spec fn small_cmds(s: Seq<PCmd>) -> bool {
    forall|i: int| 0 <= i < s.len() ==> small_cmd(#[trigger] s[i])
}

fn flen_exec(v: i128) -> (r: usize)
    requires
        abs(v as int) <= 4 * BOUND + SCALE,
    ensures
        r == flen(v as int),
{
    format_num_exec(v).len()
}

/// The relative coordinates of `a` and the text lengths of both forms.
fn rel_choice(a: &Vec<i128>, cx: i128, cy: i128) -> (r: (Vec<i128>, usize, usize))
    requires
        forall|j: int| 0 <= j < a@.len() ==> in_bound(#[trigger] a@[j] as int),
        in_bound(cx as int),
        in_bound(cy as int),
        a@.len() <= 7,
    ensures
        args_view(r.0@) == rel_args(args_view(a@), cx as int, cy as int),
        r.1 == flen_sum(args_view(a@)),
        r.2 == flen_sum(rel_args(args_view(a@), cx as int, cy as int)),
{
    let mut rel: Vec<i128> = Vec::new();
    let mut abs_len: usize = 0;
    let mut rel_len: usize = 0;
    let mut i: usize = 0;
    let ghost av = args_view(a@);
    let ghost rv = rel_args(av, cx as int, cy as int);
    while i < a.len()
        invariant
            0 <= i <= a@.len() <= 7,
            av == args_view(a@),
            rv == rel_args(av, cx as int, cy as int),
            forall|j: int| 0 <= j < a@.len() ==> in_bound(#[trigger] a@[j] as int),
            in_bound(cx as int),
            in_bound(cy as int),
            args_view(rel@) == rv.take(i as int),
            abs_len == flen_sum(av.take(i as int)),
            rel_len == flen_sum(rv.take(i as int)),
            abs_len <= 40 * i,
            rel_len <= 40 * i,
        decreases a@.len() - i,
    {
        let v = if i % 2 == 0 {
            a[i] - cx
        } else {
            a[i] - cy
        };
        let la = flen_exec(a[i]);
        let lr = flen_exec(v);
        proof {
            lemma_flen_small(a@[i as int] as int);
            lemma_flen_small(v as int);
            assert(av.take(i + 1).drop_last() =~= av.take(i as int));
            assert(rv.take(i + 1).drop_last() =~= rv.take(i as int));
            assert(rv[i as int] == v as int);
            lemma_args_view_push(rel@, v);
            assert(args_view(rel@.push(v)) =~= rv.take(i + 1));
        }
        rel.push(v);
        abs_len = abs_len + la;
        rel_len = rel_len + lr;
        i = i + 1;
    }
    proof {
        assert(av.take(i as int) =~= av);
        assert(rv.take(i as int) =~= rv);
    }
    (rel, abs_len, rel_len)
}

proof fn lemma_dec_len(n: nat, k: nat)
    requires
        1 <= k,
        n < super::number::pow10(k),
    ensures
        1 <= super::number::dec_digits(n).len() <= k,
    decreases n,
{
    if n >= 10 {
        if k == 1 {
            assert(super::number::pow10(1) == 10) by {
                reveal_with_fuel(super::number::pow10, 2);
            }
        }
        assert(super::number::pow10(k) == 10 * super::number::pow10((k - 1) as nat));
        lemma_dec_len(n / 10, (k - 1) as nat);
    }
}

proof fn lemma_trim_len(s: Seq<char>)
    ensures
        super::number::trim_zeros(s).len() <= s.len(),
    decreases s.len(),
{
    if s.len() > 0 && s.last() == '0' {
        lemma_trim_len(s.drop_last());
    }
}

proof fn lemma_padded_len(n: nat, k: nat)
    ensures
        super::number::padded_digits(n, k).len() == k,
    decreases k,
{
    if k > 0 {
        lemma_padded_len(n / 10, (k - 1) as nat);
    }
}

/// A coordinate's text is at most forty characters long.
proof fn lemma_flen_small(v: int)
    requires
        abs(v) <= 4 * BOUND + SCALE,
    ensures
        0 <= flen(v) <= 40,
{
    if v != 0 {
        let m = abs(v);
        let ip = m / (SCALE as int);
        let fp = m % (SCALE as int);
        assert(super::number::pow10(12) == 1_000_000_000_000) by {
            reveal_with_fuel(super::number::pow10, 13);
        }
        lemma_dec_len(ip as nat, 12);
        lemma_padded_len(fp as nat, 10);
        lemma_trim_len(super::number::padded_digits(fp as nat, 10));
    }
}

fn rel_step_exec(cx: i128, cy: i128, sx: i128, sy: i128, c: &PathCmd) -> (r: (
    (i128, i128, i128, i128),
    PathCmd,
))
    requires
        wf_cmd(c@),
        abs_letter(c.cmd),
        in_bound(cx as int),
        in_bound(cy as int),
        in_bound(sx as int),
        in_bound(sy as int),
    ensures
        ({
            let (st2, o) = rel_step(
                RState { cx: cx as int, cy: cy as int, sx: sx as int, sy: sy as int },
                c@,
            );
            &&& st2 == (RState {
                cx: r.0.0 as int,
                cy: r.0.1 as int,
                sx: r.0.2 as int,
                sy: r.0.3 as int,
            })
            &&& o == r.1@
        }),
        in_bound(r.0.0 as int),
        in_bound(r.0.1 as int),
        in_bound(r.0.2 as int),
        in_bound(r.0.3 as int),
        small_cmd(r.1@),
{
    let a = &c.args;
    proof {
        assert forall|j: int| 0 <= j < a@.len() implies in_bound(#[trigger] a@[j] as int) by {
            assert(c@.args[j] == a@[j] as int);
        }
    }
    let l = c.cmd;
    if l == 'M' {
        let x = a[0];
        let y = a[1];
        let rx = x - cx;
        let ry = y - cy;
        proof {
            lemma_flen_small(x as int);
            lemma_flen_small(y as int);
            lemma_flen_small(rx as int);
            lemma_flen_small(ry as int);
        }
        let o = if flen_exec(rx) + flen_exec(ry) < flen_exec(x) + flen_exec(y) && !(cx == 0 && cy
            == 0) {
            mk2('m', rx, ry)
        } else {
            copy_cmd(c)
        };
        ((x, y, x, y), o)
    } else if l == 'L' {
        let x = a[0];
        let y = a[1];
        let rx = x - cx;
        let ry = y - cy;
        proof {
            lemma_flen_small(x as int);
            lemma_flen_small(y as int);
            lemma_flen_small(rx as int);
            lemma_flen_small(ry as int);
        }
        let o = if ry == 0 {
            if flen_exec(rx) <= flen_exec(x) {
                mk1('h', rx)
            } else {
                mk1('H', x)
            }
        } else if rx == 0 {
            if flen_exec(ry) <= flen_exec(y) {
                mk1('v', ry)
            } else {
                mk1('V', y)
            }
        } else if flen_exec(rx) + flen_exec(ry) < flen_exec(x) + flen_exec(y) {
            mk2('l', rx, ry)
        } else {
            copy_cmd(c)
        };
        ((x, y, sx, sy), o)
    } else if l == 'C' || l == 'S' || l == 'Q' || l == 'T' {
        let (rel, abs_len, rel_len) = rel_choice(a, cx, cy);
        let n = a.len();
        let nx = a[n - 2];
        let ny = a[n - 1];
        let lc = if l == 'C' {
            'c'
        } else if l == 'S' {
            's'
        } else if l == 'Q' {
            'q'
        } else {
            't'
        };
        let o = if rel_len < abs_len {
            let o = PathCmd { cmd: lc, args: rel };
            proof {
                assert forall|j: int| 0 <= j < o@.args.len() implies abs(#[trigger] o@.args[j])
                    <= 2 * BOUND by {
                    assert(o@.args[j] == rel_args(args_view(a@), cx as int, cy as int)[j]);
                    assert(args_view(a@)[j] == a@[j] as int);
                }
            }
            o
        } else {
            copy_cmd(c)
        };
        ((nx, ny, sx, sy), o)
    } else if l == 'A' {
        let rx = a[5] - cx;
        let ry = a[6] - cy;
        proof {
            lemma_flen_small(a@[5] as int);
            lemma_flen_small(a@[6] as int);
            lemma_flen_small(rx as int);
            lemma_flen_small(ry as int);
        }
        let o = if flen_exec(rx) + flen_exec(ry) < flen_exec(a[5]) + flen_exec(a[6]) {
            mk7('a', a[0], a[1], a[2], a[3], a[4], rx, ry)
        } else {
            copy_cmd(c)
        };
        ((a[5], a[6], sx, sy), o)
    } else {
        ((sx, sy, sx, sy), mk0('z'))
    }
}

/// Each absolute command in its shorter form; the exec form of `abs_to_rel`.
pub fn abs_to_rel_exec(cmds: &Vec<PathCmd>) -> (r: Vec<PathCmd>)
    requires
        abs_wf(cmds_view(cmds@)),
    ensures
        cmds_view(r@) == abs_to_rel(cmds_view(cmds@)),
        small_cmds(cmds_view(r@)),
{
    let mut out: Vec<PathCmd> = Vec::new();
    let mut cx: i128 = 0;
    let mut cy: i128 = 0;
    let mut sx: i128 = 0;
    let mut sy: i128 = 0;
    let mut i: usize = 0;
    let ghost input = cmds_view(cmds@);
    proof {
        assert(cmds_view(out@) =~= Seq::<PCmd>::empty());
        assert(input.skip(0) =~= input);
        assert(Seq::<PCmd>::empty() + abs_to_rel(input) =~= abs_to_rel(input));
    }
    while i < cmds.len()
        invariant
            0 <= i <= cmds@.len(),
            input == cmds_view(cmds@),
            abs_wf(input),
            in_bound(cx as int),
            in_bound(cy as int),
            in_bound(sx as int),
            in_bound(sy as int),
            small_cmds(cmds_view(out@)),
            abs_to_rel(input) == cmds_view(out@) + rel_from(
                RState { cx: cx as int, cy: cy as int, sx: sx as int, sy: sy as int },
                input.skip(i as int),
            ),
        decreases cmds@.len() - i,
    {
        proof {
            lemma_cmds_view_skip(cmds@, i as int);
            assert(input[i as int] == cmds@[i as int]@);
        }
        let ((ncx, ncy, nsx, nsy), o) = rel_step_exec(cx, cy, sx, sy, &cmds[i]);
        proof {
            let st2 = RState { cx: ncx as int, cy: ncy as int, sx: nsx as int, sy: nsy as int };
            lemma_cmds_view_push(out@, o);
            assert(cmds_view(out@) + (seq![o@] + rel_from(st2, input.skip(i + 1)))
                =~= cmds_view(out@).push(o@) + rel_from(st2, input.skip(i + 1)));
        }
        out.push(o);
        cx = ncx;
        cy = ncy;
        sx = nsx;
        sy = nsy;
        i = i + 1;
    }
    proof {
        assert(input.skip(i as int) =~= Seq::<PCmd>::empty());
        assert(cmds_view(out@) + Seq::<PCmd>::empty() =~= cmds_view(out@));
    }
    out
}

} // verus!

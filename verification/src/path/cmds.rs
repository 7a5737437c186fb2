//! Building and copying path commands.
use vstd::prelude::*;

use super::grammar::{PCmd, PathCmd, args_view, cmds_view};
use super::number::{BOUND, in_bound};

verus! {

broadcast use vstd::std_specs::vec::group_vec_axioms;

/// Letters of commands in absolute form, as the simplification steps leave them.
pub open spec fn abs_letter(c: char) -> bool {
    c == 'M' || c == 'L' || c == 'C' || c == 'S' || c == 'Q' || c == 'T' || c == 'A' || c == 'Z'
}

pub open spec fn all_abs(s: Seq<PCmd>) -> bool {
    forall|i: int| 0 <= i < s.len() ==> abs_letter(#[trigger] s[i].letter)
}

pub open spec fn args_in_bound(a: Seq<int>) -> bool {
    forall|j: int| 0 <= j < a.len() ==> in_bound(#[trigger] a[j])
}

pub proof fn lemma_args_view_push(v: Seq<i128>, x: i128)
    ensures
        args_view(v.push(x)) == args_view(v).push(x as int),
{
    assert(args_view(v.push(x)) =~= args_view(v).push(x as int));
}

pub proof fn lemma_cmds_view_push(v: Seq<PathCmd>, x: PathCmd)
    ensures
        cmds_view(v.push(x)) == cmds_view(v).push(x@),
{
    assert(cmds_view(v.push(x)) =~= cmds_view(v).push(x@));
}

pub proof fn lemma_cmds_view_skip(v: Seq<PathCmd>, i: int)
    requires
        0 <= i < v.len(),
    ensures
        cmds_view(v).skip(i)[0] == v[i]@,
        cmds_view(v).skip(i).drop_first() == cmds_view(v).skip(i + 1),
        cmds_view(v).skip(i).len() > 0,
{
    assert(cmds_view(v).skip(i).drop_first() =~= cmds_view(v).skip(i + 1));
}

pub fn mk0(letter: char) -> (r: PathCmd)
    ensures
        r@ == (PCmd { letter, args: seq![] }),
{
    let r = PathCmd { cmd: letter, args: Vec::new() };
    assert(r@.args =~= Seq::<int>::empty());
    r
}

pub fn mk1(letter: char, a: i128) -> (r: PathCmd)
    ensures
        r@ == (PCmd { letter, args: seq![a as int] }),
{
    let mut v: Vec<i128> = Vec::new();
    v.push(a);
    let r = PathCmd { cmd: letter, args: v };
    assert(r@.args =~= seq![a as int]);
    r
}

pub fn mk2(letter: char, a: i128, b: i128) -> (r: PathCmd)
    ensures
        r@ == (PCmd { letter, args: seq![a as int, b as int] }),
{
    let mut v: Vec<i128> = Vec::new();
    v.push(a);
    v.push(b);
    let r = PathCmd { cmd: letter, args: v };
    assert(r@.args =~= seq![a as int, b as int]);
    r
}

pub fn mk4(letter: char, a: i128, b: i128, c: i128, d: i128) -> (r: PathCmd)
    ensures
        r@ == (PCmd { letter, args: seq![a as int, b as int, c as int, d as int] }),
{
    let mut v: Vec<i128> = Vec::new();
    v.push(a);
    v.push(b);
    v.push(c);
    v.push(d);
    let r = PathCmd { cmd: letter, args: v };
    assert(r@.args =~= seq![a as int, b as int, c as int, d as int]);
    r
}

pub fn mk6(letter: char, a: i128, b: i128, c: i128, d: i128, e: i128, f: i128) -> (r: PathCmd)
    ensures
        r@ == (PCmd {
            letter,
            args: seq![a as int, b as int, c as int, d as int, e as int, f as int],
        }),
{
    let mut v: Vec<i128> = Vec::new();
    v.push(a);
    v.push(b);
    v.push(c);
    v.push(d);
    v.push(e);
    v.push(f);
    let r = PathCmd { cmd: letter, args: v };
    assert(r@.args =~= seq![a as int, b as int, c as int, d as int, e as int, f as int]);
    r
}

pub fn mk7(letter: char, a: i128, b: i128, c: i128, d: i128, e: i128, f: i128, g: i128) -> (r:
    PathCmd)
    ensures
        r@ == (PCmd {
            letter,
            args: seq![a as int, b as int, c as int, d as int, e as int, f as int, g as int],
        }),
{
    let mut v: Vec<i128> = Vec::new();
    v.push(a);
    v.push(b);
    v.push(c);
    v.push(d);
    v.push(e);
    v.push(f);
    v.push(g);
    let r = PathCmd { cmd: letter, args: v };
    assert(r@.args =~= seq![a as int, b as int, c as int, d as int, e as int, f as int, g as int]);
    r
}

/// A copy of a command.
pub fn copy_cmd(c: &PathCmd) -> (r: PathCmd)
    ensures
        r@ == c@,
{
    let mut v: Vec<i128> = Vec::new();
    let mut i: usize = 0;
    while i < c.args.len()
        invariant
            0 <= i <= c.args@.len(),
            v@ == c.args@.take(i as int),
        decreases c.args@.len() - i,
    {
        v.push(c.args[i]);
        i = i + 1;
        assert(v@ =~= c.args@.take(i as int));
    }
    assert(c.args@.take(c.args@.len() as int) =~= c.args@);
    PathCmd { cmd: c.cmd, args: v }
}

/// Whether every number of `v` is within bounds.
pub fn all_in_bound(v: &Vec<i128>) -> (r: bool)
    ensures
        r == args_in_bound(args_view(v@)),
{
    let mut i: usize = 0;
    while i < v.len()
        invariant
            0 <= i <= v@.len(),
            forall|j: int| 0 <= j < i ==> in_bound(#[trigger] v@[j] as int),
        decreases v@.len() - i,
    {
        if v[i] < -BOUND || v[i] > BOUND {
            assert(args_view(v@)[i as int] == v@[i as int] as int);
            return false;
        }
        i = i + 1;
    }
    assert forall|j: int| 0 <= j < args_view(v@).len() implies in_bound(
        #[trigger] args_view(v@)[j],
    ) by {
        assert(args_view(v@)[j] == v@[j] as int);
    }
    true
}

} // verus!

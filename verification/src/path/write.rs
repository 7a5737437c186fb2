//! Writing path commands back as text, with as few letters and separators as reading
//! them back needs.
use vstd::prelude::*;

use super::grammar::{PCmd, PathCmd, args_view, cmds_view};
use super::number::{
    BOUND, SCALE, abs, dec_digits, format_num, format_num_exec, is_digit, round_and_format,
    round_to_exec,
};
use super::relative::{small_cmd, small_cmds};

verus! {

broadcast use vstd::std_specs::vec::group_vec_axioms;

/// Whether a command's letter is written: not when it repeats the previous command's (a
/// move excepted, which a repeated group would turn into a line), nor for a line right
/// after a move (read back as an implicit line).
pub open spec fn emit_letter(prev: Option<char>, c: char) -> bool {
    !((prev == Some(c) && c != 'M' && c != 'm') || (prev == Some('M') && c == 'L') || (prev
        == Some('m') && c == 'l'))
}

/// Whether the number at the end of `out` already holds a decimal point.
pub open spec fn has_prior_dot(out: Seq<char>) -> bool
    decreases out.len(),
{
    if out.len() == 0 {
        false
    } else if out.last() == '.' {
        true
    } else if is_digit(out.last()) {
        has_prior_dot(out.drop_last())
    } else {
        false
    }
}

/// Whether a space must come between `out` and the number text `next`.
pub open spec fn needs_sep(out: Seq<char>, next: Seq<char>) -> bool {
    if out.len() == 0 {
        false
    } else {
        let last = out.last();
        let first = next[0];
        if first == '-' {
            !is_digit(last) && last != ' ' && last != ','
        } else if first == '.' {
            !has_prior_dot(out)
        } else {
            is_digit(last) || last == '.'
        }
    }
}

/// Appends the numbers `args` (rounded to `p` places); `after_letter` when the first
/// follows a command letter, which needs no separator after it.
pub open spec fn write_args(out: Seq<char>, after_letter: bool, args: Seq<int>, p: nat) -> Seq<
    char,
>
    decreases args.len(),
{
    if args.len() == 0 {
        out
    } else {
        let s = round_and_format(args[0], p);
        let sep = !after_letter && needs_sep(out, s);
        let out2 = (if sep {
            out.push(' ')
        } else {
            out
        }) + s;
        write_args(out2, false, args.drop_first(), p)
    }
}

/// Appends one command, given the previous command's letter.
pub open spec fn write_cmd(out: Seq<char>, prev: Option<char>, c: PCmd, p: nat) -> Seq<char> {
    let e = emit_letter(prev, c.letter);
    write_args(
        if e {
            out.push(c.letter)
        } else {
            out
        },
        e,
        c.args,
        p,
    )
}

pub open spec fn write_from(out: Seq<char>, prev: Option<char>, cmds: Seq<PCmd>, p: nat) -> Seq<
    char,
>
    decreases cmds.len(),
{
    if cmds.len() == 0 {
        out
    } else {
        write_from(write_cmd(out, prev, cmds[0], p), Some(cmds[0].letter), cmds.drop_first(), p)
    }
}

/// The text of some commands, numbers rounded to `p` places.
pub open spec fn serialize_path(cmds: Seq<PCmd>, p: nat) -> Seq<char> {
    write_from(seq![], None, cmds, p)
}

proof fn lemma_dec_nonempty(n: nat)
    ensures
        dec_digits(n).len() >= 1,
    decreases n,
{
    if n >= 10 {
        lemma_dec_nonempty(n / 10);
    }
}

pub proof fn lemma_format_nonempty(v: int)
    ensures
        format_num(v).len() >= 1,
{
    if v != 0 {
        let m = abs(v);
        let ip = m / (SCALE as int);
        if ip != 0 {
            lemma_dec_nonempty(ip as nat);
        }
    }
}

fn emit_letter_exec(prev: Option<char>, c: char) -> (r: bool)
    ensures
        r == emit_letter(prev, c),
{
    match prev {
        Some(q) => !((q == c && c != 'M' && c != 'm') || (q == 'M' && c == 'L') || (q == 'm'
            && c == 'l')),
        None => true,
    }
}

fn has_prior_dot_exec(out: &Vec<char>) -> (r: bool)
    ensures
        r == has_prior_dot(out@),
{
    let mut i = out.len();
    assert(out@.take(i as int) =~= out@);
    while i > 0 && ('0' <= out[i - 1] && out[i - 1] <= '9')
        invariant
            0 <= i <= out@.len(),
            has_prior_dot(out@.take(i as int)) == has_prior_dot(out@),
        decreases i,
    {
        assert(out@.take(i as int).drop_last() =~= out@.take(i - 1));
        i = i - 1;
    }
    if i == 0 {
        assert(out@.take(0) =~= Seq::<char>::empty());
        false
    } else {
        out[i - 1] == '.'
    }
}

fn needs_sep_exec(out: &Vec<char>, next: &Vec<char>) -> (r: bool)
    requires
        next@.len() > 0,
    ensures
        r == needs_sep(out@, next@),
{
    if out.len() == 0 {
        return false;
    }
    let last = out[out.len() - 1];
    let first = next[0];
    if first == '-' {
        !('0' <= last && last <= '9') && last != ' ' && last != ','
    } else if first == '.' {
        !has_prior_dot_exec(out)
    } else {
        ('0' <= last && last <= '9') || last == '.'
    }
}

fn append(out: &mut Vec<char>, t: &Vec<char>)
    ensures
        final(out)@ == old(out)@ + t@,
{
    let mut i: usize = 0;
    while i < t.len()
        invariant
            0 <= i <= t@.len(),
            out@ == old(out)@ + t@.take(i as int),
        decreases t@.len() - i,
    {
        out.push(t[i]);
        i = i + 1;
        assert(out@ =~= old(out)@ + t@.take(i as int));
    }
    assert(t@.take(t@.len() as int) =~= t@);
}

fn write_args_exec(out: &mut Vec<char>, after_letter: bool, args: &Vec<i128>, p: u32)
    requires
        forall|j: int| 0 <= j < args@.len() ==> abs(#[trigger] args@[j] as int) <= 2 * BOUND,
    ensures
        final(out)@ == write_args(old(out)@, after_letter, args_view(args@), p as nat),
{
    let ghost av = args_view(args@);
    let mut first = after_letter;
    let mut i: usize = 0;
    proof {
        assert(av.skip(0) =~= av);
    }
    while i < args.len()
        invariant
            0 <= i <= args@.len(),
            av == args_view(args@),
            forall|j: int| 0 <= j < args@.len() ==> abs(#[trigger] args@[j] as int) <= 2 * BOUND,
            write_args(old(out)@, after_letter, av, p as nat) == write_args(
                out@,
                first,
                av.skip(i as int),
                p as nat,
            ),
        decreases args@.len() - i,
    {
        let r = round_to_exec(args[i], p);
        let s = format_num_exec(r);
        proof {
            lemma_format_nonempty(r as int);
            assert(av.skip(i as int)[0] == args@[i as int] as int);
            assert(av.skip(i as int).drop_first() =~= av.skip(i + 1));
        }
        let sep = !first && needs_sep_exec(out, &s);
        if sep {
            out.push(' ');
        }
        append(out, &s);
        first = false;
        i = i + 1;
    }
    proof {
        assert(av.skip(i as int) =~= Seq::<int>::empty());
    }
}

/// The text of some commands; the exec form of `serialize_path`.
pub fn serialize_path_exec(cmds: &Vec<PathCmd>, p: u32) -> (r: Vec<char>)
    requires
        small_cmds(cmds_view(cmds@)),
    ensures
        r@ == serialize_path(cmds_view(cmds@), p as nat),
{
    let mut out: Vec<char> = Vec::new();
    let mut prev: Option<char> = None;
    let mut i: usize = 0;
    let ghost input = cmds_view(cmds@);
    proof {
        assert(input.skip(0) =~= input);
    }
    while i < cmds.len()
        invariant
            0 <= i <= cmds@.len(),
            input == cmds_view(cmds@),
            small_cmds(input),
            serialize_path(input, p as nat) == write_from(out@, prev, input.skip(i as int), p as nat),
        decreases cmds@.len() - i,
    {
        let c = &cmds[i];
        proof {
            assert(input[i as int] == c@);
            assert(input.skip(i as int)[0] == c@);
            assert(input.skip(i as int).drop_first() =~= input.skip(i + 1));
            assert(small_cmd(c@));
            assert forall|j: int| 0 <= j < c.args@.len() implies abs(#[trigger] c.args@[j] as int)
                <= 2 * BOUND by {
                assert(c@.args[j] == c.args@[j] as int);
            }
        }
        let l = c.cmd;
        let e = emit_letter_exec(prev, l);
        if e {
            out.push(l);
        }
        write_args_exec(&mut out, e, &c.args, p);
        prev = Some(l);
        i = i + 1;
    }
    proof {
        assert(input.skip(i as int) =~= Seq::<PCmd>::empty());
    }
    out
}

} // verus!

//! Reading a whole path: commands with their groups of numbers.
use vstd::prelude::*;

use super::grammar::{NumRead, NumScan, PCmd, PathCmd, args_view, argc, argc_exec, cmds_view, implicit_next, is_arc, is_command, is_command_exec, lemma_scan_progress, lemma_skip_ge, scan_number, scan_number_exec, skip_sep, skip_sep_exec, wf_cmd, wf_cmds};
use super::cmds::lemma_cmds_view_push;
use super::number::{SCALE, in_bound};
use crate::text::chars_of;

verus! {

broadcast use vstd::std_specs::vec::group_vec_axioms;

/// What reading the numbers of one command yields: the numbers and where they end; no
/// number at all where the first was due (with where the characters taken end); or an
/// error (a missing or malformed number after the first, a bad arc flag, a number out of
/// range).
pub enum ArgsScan {
    Done(Seq<int>, int),
    Stop(int),
    Fail,
}

pub open spec fn cons_arg(v: int, r: ArgsScan) -> ArgsScan {
    match r {
        ArgsScan::Done(a, e) => ArgsScan::Done(seq![v] + a, e),
        other => other,
    }
}

/// Reads numbers `i..n` of command `c` from position `p`.
pub open spec fn pp_args(s: Seq<char>, p: int, c: char, i: int, n: int) -> ArgsScan
    decreases n - i,
{
    if i >= n {
        ArgsScan::Done(seq![], p)
    } else {
        let q = skip_sep(s, p);
        if is_arc(c) && (i == 3 || i == 4) {
            if 0 <= q < s.len() && (s[q] == '0' || s[q] == '1') {
                cons_arg(
                    if s[q] == '1' {
                        SCALE as int
                    } else {
                        0
                    },
                    pp_args(s, q + 1, c, i + 1, n),
                )
            } else {
                ArgsScan::Fail
            }
        } else {
            match scan_number(s, q) {
                NumScan::Num(v, e) => cons_arg(v, pp_args(s, e, c, i + 1, n)),
                NumScan::NoNum(e) => if i == 0 {
                    ArgsScan::Stop(e)
                } else {
                    ArgsScan::Fail
                },
                NumScan::TooBig => ArgsScan::Fail,
            }
        }
    }
}

pub proof fn lemma_args_progress(s: Seq<char>, p: int, c: char, i: int, n: int)
    requires
        0 <= p <= s.len(),
        i <= n,
    ensures
        pp_args(s, p, c, i, n) matches ArgsScan::Done(a, e) ==> p <= e <= s.len() && (i < n ==> p
            < e) && a.len() == n - i && forall|j: int| 0 <= j < a.len() ==> in_bound(#[trigger] a[j]),
        pp_args(s, p, c, i, n) matches ArgsScan::Stop(e) ==> p <= e <= s.len(),
    decreases n - i,
{
    if i < n {
        let q = skip_sep(s, p);
        lemma_skip_ge(s, p);
        if is_arc(c) && (i == 3 || i == 4) {
            if 0 <= q < s.len() && (s[q] == '0' || s[q] == '1') {
                lemma_args_progress(s, q + 1, c, i + 1, n);
            }
        } else {
            lemma_scan_progress(s, q);
            match scan_number(s, q) {
                NumScan::Num(v, e) => {
                    lemma_args_progress(s, e, c, i + 1, n);
                    if let ArgsScan::Done(a, e2) = pp_args(s, e, c, i + 1, n) {
                        assert forall|j: int| 0 <= j < a.len() + 1 implies in_bound(
                            #[trigger] (seq![v] + a)[j],
                        ) by {
                            if j > 0 {
                                assert((seq![v] + a)[j] == a[j - 1]);
                            }
                        }
                    }
                },
                _ => {},
            }
        }
    }
}

/// What reading the groups of numbers that follow one command letter yields: the
/// commands, where they end and the command that a further group would stand for; or an
/// error.
pub enum GroupsScan {
    Done(Seq<PCmd>, int, char),
    Fail,
}

pub open spec fn cons_cmd(x: PCmd, r: GroupsScan) -> GroupsScan {
    match r {
        GroupsScan::Done(cs, e, c) => GroupsScan::Done(seq![x] + cs, e, c),
        GroupsScan::Fail => GroupsScan::Fail,
    }
}

/// Reads groups of numbers for command `c` from `p` until the text ends, a command letter
/// comes, or a group yields no number.
pub open spec fn pp_groups(s: Seq<char>, p: int, c: char) -> GroupsScan
    decreases s.len() - p,
{
    let q = skip_sep(s, p);
    if p < 0 || p > s.len() || argc(c) == 0 || q >= s.len() || is_command(s[q]) {
        GroupsScan::Done(seq![], q, c)
    } else {
        match pp_args(s, q, c, 0, argc(c) as int) {
            ArgsScan::Fail => GroupsScan::Fail,
            ArgsScan::Stop(e) => GroupsScan::Done(seq![], e, c),
            ArgsScan::Done(a, e) => {
                proof {
                    lemma_skip_ge(s, p);
                    lemma_args_progress(s, q, c, 0, argc(c) as int);
                }
                cons_cmd(PCmd { letter: c, args: a }, pp_groups(s, e, implicit_next(c)))
            },
        }
    }
}

pub proof fn lemma_groups_bound(s: Seq<char>, p: int, c: char)
    requires
        0 <= p <= s.len(),
    ensures
        pp_groups(s, p, c) matches GroupsScan::Done(cs, e, cl) ==> p <= e <= s.len(),
    decreases s.len() - p,
{
    lemma_skip_ge(s, p);
    let q = skip_sep(s, p);
    if !(argc(c) == 0 || q >= s.len() || is_command(s[q])) {
        lemma_args_progress(s, q, c, 0, argc(c) as int);
        match pp_args(s, q, c, 0, argc(c) as int) {
            ArgsScan::Done(a, e) => {
                lemma_groups_bound(s, e, implicit_next(c));
            },
            _ => {},
        }
    }
}

pub open spec fn cons_opt(x: Seq<PCmd>, r: Option<Seq<PCmd>>) -> Option<Seq<PCmd>> {
    match r {
        Some(cs) => Some(x + cs),
        None => None,
    }
}

/// Reads commands from `p`, with `cur` the command that bare numbers stand for. `None`
/// where a number is due and no command is current, where a group is malformed, or where
/// reading would come to rest on a character that no rule takes (the reading makes no
/// more progress there).
pub open spec fn pp_outer(s: Seq<char>, p: int, cur: Option<char>) -> Option<Seq<PCmd>>
    decreases s.len() - p,
{
    let q = skip_sep(s, p);
    if p < 0 || q >= s.len() {
        Some(seq![])
    } else {
        let read = is_command(s[q]);
        let q2 = if read {
            skip_sep(s, q + 1)
        } else {
            q
        };
        let cur2 = if read {
            Some(s[q])
        } else {
            cur
        };
        match cur2 {
            None => None,
            Some(c) => if argc(c) == 0 {
                if q2 <= p {
                    None
                } else {
                    proof {
                        lemma_skip_ge(s, p);
                        if read {
                            lemma_skip_ge(s, q + 1);
                        }
                    }
                    cons_opt(seq![PCmd { letter: c, args: seq![] }], pp_outer(s, q2, None))
                }
            } else {
                match pp_groups(s, q2, c) {
                    GroupsScan::Fail => None,
                    GroupsScan::Done(cs, e, cl) => if e <= p {
                        None
                    } else {
                        proof {
                            lemma_skip_ge(s, p);
                            if read {
                                lemma_skip_ge(s, q + 1);
                            }
                            lemma_groups_bound(s, q2, c);
                        }
                        cons_opt(cs, pp_outer(s, e, Some(cl)))
                    },
                }
            },
        }
    }
}

/// The commands of a path's text, or `None` where the text is malformed.
pub open spec fn sp_parse_path(s: Seq<char>) -> Option<Seq<PCmd>> {
    pp_outer(s, 0, None)
}

pub enum ArgsRead {
    Done(Vec<i128>, usize),
    Stop(usize),
    Fail,
}

pub open spec fn args_read_view(r: ArgsRead) -> ArgsScan {
    match r {
        ArgsRead::Done(v, e) => ArgsScan::Done(args_view(v@), e as int),
        ArgsRead::Stop(e) => ArgsScan::Stop(e as int),
        ArgsRead::Fail => ArgsScan::Fail,
    }
}

pub open spec fn prepend_args(acc: Seq<int>, r: ArgsScan) -> ArgsScan {
    match r {
        ArgsScan::Done(a, e) => ArgsScan::Done(acc + a, e),
        other => other,
    }
}

/// Reads the numbers of one command `c` from `p`.
fn read_args(s: &Vec<char>, p: usize, c: char) -> (r: ArgsRead)
    requires
        p <= s@.len(),
    ensures
        args_read_view(r) == pp_args(s@, p as int, c, 0, argc(c) as int),
        r matches ArgsRead::Done(v, e) ==> v@.len() == argc(c) && p <= e <= s@.len() && forall|
            j: int,
        | 0 <= j < v@.len() ==> in_bound(#[trigger] v@[j] as int),
        r matches ArgsRead::Stop(e) ==> p <= e <= s@.len(),
{
    let n = argc_exec(c);
    let mut acc: Vec<i128> = Vec::new();
    let mut pos = p;
    let mut i: usize = 0;
    assert(args_view(acc@) =~= Seq::<int>::empty());
    proof {
        match pp_args(s@, p as int, c, 0, n as int) {
            ArgsScan::Done(a, e) => {
                assert(Seq::<int>::empty() + a =~= a);
            },
            _ => {},
        }
    }
    while i < n
        invariant
            i <= n == argc(c),
            p <= pos <= s@.len(),
            acc@.len() == i,
            forall|j: int| 0 <= j < acc@.len() ==> in_bound(#[trigger] acc@[j] as int),
            pp_args(s@, p as int, c, 0, n as int) == prepend_args(
                args_view(acc@),
                pp_args(s@, pos as int, c, i as int, n as int),
            ),
        decreases n - i,
    {
        let q = skip_sep_exec(s, pos);
        let ghost rest = pp_args(s@, pos as int, c, i as int, n as int);
        if (c == 'A' || c == 'a') && (i == 3 || i == 4) {
            if q < s.len() && (s[q] == '0' || s[q] == '1') {
                let v: i128 = if s[q] == '1' {
                    SCALE
                } else {
                    0
                };
                proof {
                    let nxt = pp_args(s@, q + 1, c, i + 1, n as int);
                    assert(rest == cons_arg(v as int, nxt));
                    assert(args_view(acc@.push(v)) =~= args_view(acc@).push(v as int));
                    match nxt {
                        ArgsScan::Done(a, e) => {
                            assert(args_view(acc@) + (seq![v as int] + a) =~= args_view(
                                acc@.push(v),
                            ) + a);
                        },
                        _ => {},
                    }
                }
                acc.push(v);
                pos = q + 1;
            } else {
                return ArgsRead::Fail;
            }
        } else {
            match scan_number_exec(s, q) {
                NumRead::Num(v, e) => {
                    proof {
                        lemma_scan_progress(s@, q as int);
                        lemma_skip_ge(s@, q as int);
                        let nxt = pp_args(s@, e as int, c, i + 1, n as int);
                        assert(rest == cons_arg(v as int, nxt));
                        assert(args_view(acc@.push(v)) =~= args_view(acc@).push(v as int));
                        match nxt {
                            ArgsScan::Done(a, e2) => {
                                assert(args_view(acc@) + (seq![v as int] + a) =~= args_view(
                                    acc@.push(v),
                                ) + a);
                            },
                            _ => {},
                        }
                    }
                    acc.push(v);
                    pos = e;
                },
                NumRead::NoNum(e) => {
                    proof {
                        lemma_scan_progress(s@, q as int);
                        lemma_skip_ge(s@, pos as int);
                    }
                    if i == 0 {
                        return ArgsRead::Stop(e);
                    } else {
                        return ArgsRead::Fail;
                    }
                },
                NumRead::TooBig => {
                    return ArgsRead::Fail;
                },
            }
        }
        i = i + 1;
    }
    proof {
        assert(args_view(acc@) + Seq::<int>::empty() =~= args_view(acc@));
    }
    ArgsRead::Done(acc, pos)
}

pub enum GroupsRead {
    Done(Vec<PathCmd>, usize, char),
    Fail,
}

pub open spec fn groups_read_view(r: GroupsRead) -> GroupsScan {
    match r {
        GroupsRead::Done(v, e, c) => GroupsScan::Done(cmds_view(v@), e as int, c),
        GroupsRead::Fail => GroupsScan::Fail,
    }
}

pub open spec fn prepend_groups(acc: Seq<PCmd>, r: GroupsScan) -> GroupsScan {
    match r {
        GroupsScan::Done(cs, e, c) => GroupsScan::Done(acc + cs, e, c),
        GroupsScan::Fail => GroupsScan::Fail,
    }
}

/// Reads the groups of numbers that follow a command letter.
fn read_groups(s: &Vec<char>, p: usize, c: char) -> (r: GroupsRead)
    requires
        p <= s@.len(),
        is_command(c),
        argc(c) > 0,
    ensures
        groups_read_view(r) == pp_groups(s@, p as int, c),
        r matches GroupsRead::Done(v, e, cl) ==> wf_cmds(cmds_view(v@)) && p <= e <= s@.len()
            && is_command(cl) && argc(cl) > 0 && (cl == c || cl == implicit_next(c)),
{
    let mut acc: Vec<PathCmd> = Vec::new();
    let mut pos = p;
    let mut cc = c;
    proof {
        assert(cmds_view(acc@) =~= Seq::<PCmd>::empty());
        match pp_groups(s@, p as int, c) {
            GroupsScan::Done(cs, e, cl) => {
                assert(Seq::<PCmd>::empty() + cs =~= cs);
            },
            _ => {},
        }
    }
    loop
        invariant
            p <= pos <= s@.len(),
            is_command(cc),
            argc(cc) > 0,
            cc == c || cc == implicit_next(c),
            wf_cmds(cmds_view(acc@)),
            pp_groups(s@, p as int, c) == prepend_groups(
                cmds_view(acc@),
                pp_groups(s@, pos as int, cc),
            ),
        decreases s@.len() - pos,
    {
        let q = skip_sep_exec(s, pos);
        if q >= s.len() || is_command_exec(s[q]) {
            proof {
                assert(cmds_view(acc@) + Seq::<PCmd>::empty() =~= cmds_view(acc@));
            }
            return GroupsRead::Done(acc, q, cc);
        }
        match read_args(s, q, cc) {
            ArgsRead::Fail => {
                return GroupsRead::Fail;
            },
            ArgsRead::Stop(e) => {
                proof {
                    assert(cmds_view(acc@) + Seq::<PCmd>::empty() =~= cmds_view(acc@));
                }
                return GroupsRead::Done(acc, e, cc);
            },
            ArgsRead::Done(args, e) => {
                proof {
                    lemma_skip_ge(s@, pos as int);
                    lemma_args_progress(s@, q as int, cc, 0, argc(cc) as int);
                }
                let ghost next_c = implicit_next(cc);
                let cmd = PathCmd { cmd: cc, args };
                proof {
                    let x = cmd@;
                    assert(wf_cmd(x));
                    lemma_cmds_view_push(acc@, cmd);
                    match pp_groups(s@, e as int, next_c) {
                        GroupsScan::Done(cs, e2, cl) => {
                            assert(cmds_view(acc@) + (seq![x] + cs) =~= cmds_view(acc@).push(x)
                                + cs);
                        },
                        _ => {},
                    }
                }
                acc.push(cmd);
                pos = e;
                cc = if cc == 'M' {
                    'L'
                } else if cc == 'm' {
                    'l'
                } else {
                    cc
                };
            },
        }
    }
}

pub open spec fn prepend_opt(acc: Seq<PCmd>, r: Option<Seq<PCmd>>) -> Option<Seq<PCmd>> {
    match r {
        Some(cs) => Some(acc + cs),
        None => None,
    }
}

/// Reads the commands of a path's text.
pub fn parse_path_chars(s: &Vec<char>) -> (r: Option<Vec<PathCmd>>)
    ensures
        r matches Some(v) ==> sp_parse_path(s@) == Some(cmds_view(v@)) && wf_cmds(cmds_view(v@)),
        r is None ==> sp_parse_path(s@) is None,
{
    let mut acc: Vec<PathCmd> = Vec::new();
    let mut pos: usize = 0;
    let mut cur: Option<char> = None;
    proof {
        assert(cmds_view(acc@) =~= Seq::<PCmd>::empty());
        match pp_outer(s@, 0, None) {
            Some(cs) => {
                assert(Seq::<PCmd>::empty() + cs =~= cs);
            },
            None => {},
        }
    }
    loop
        invariant
            pos <= s@.len(),
            cur matches Some(c) ==> is_command(c) && argc(c) > 0,
            wf_cmds(cmds_view(acc@)),
            sp_parse_path(s@) == prepend_opt(cmds_view(acc@), pp_outer(s@, pos as int, cur)),
        decreases s@.len() - pos,
    {
        let q = skip_sep_exec(s, pos);
        if q >= s.len() {
            proof {
                assert(cmds_view(acc@) + Seq::<PCmd>::empty() =~= cmds_view(acc@));
            }
            return Some(acc);
        }
        let read = is_command_exec(s[q]);
        let q2 = if read {
            skip_sep_exec(s, q + 1)
        } else {
            q
        };
        let cur2 = if read {
            Some(s[q])
        } else {
            cur
        };
        proof {
            lemma_skip_ge(s@, pos as int);
            if read {
                lemma_skip_ge(s@, q + 1);
            }
        }
        match cur2 {
            None => {
                return None;
            },
            Some(c) => {
                if argc_exec(c) == 0 {
                    let z = PathCmd { cmd: c, args: Vec::new() };
                    proof {
                        assert(read);
                        assert(z@.args =~= Seq::<int>::empty());
                        assert(wf_cmd(z@));
                        lemma_cmds_view_push(acc@, z);
                        match pp_outer(s@, q2 as int, None) {
                            Some(cs) => {
                                assert(cmds_view(acc@) + (seq![z@] + cs) =~= cmds_view(acc@).push(
                                    z@,
                                ) + cs);
                            },
                            None => {},
                        }
                    }
                    acc.push(z);
                    pos = q2;
                    cur = None;
                } else {
                    match read_groups(s, q2, c) {
                        GroupsRead::Fail => {
                            return None;
                        },
                        GroupsRead::Done(cs, e, cl) => {
                            if e <= pos {
                                return None;
                            }
                            proof {
                                assert(cmds_view(acc@ + cs@) =~= cmds_view(acc@) + cmds_view(cs@));
                                assert forall|j: int|
                                    0 <= j < cmds_view(acc@ + cs@).len() implies wf_cmd(
                                    #[trigger] cmds_view(acc@ + cs@)[j],
                                ) by {
                                    if j < acc@.len() {
                                        assert(cmds_view(acc@ + cs@)[j] == cmds_view(acc@)[j]);
                                    } else {
                                        assert(cmds_view(acc@ + cs@)[j] == cmds_view(cs@)[j
                                            - acc@.len()]);
                                    }
                                }
                                match pp_outer(s@, e as int, Some(cl)) {
                                    Some(rest) => {
                                        assert(cmds_view(acc@) + (cmds_view(cs@) + rest)
                                            =~= cmds_view(acc@ + cs@) + rest);
                                    },
                                    None => {},
                                }
                            }
                            let mut cs = cs;
                            acc.append(&mut cs);
                            pos = e;
                            cur = Some(cl);
                        },
                    }
                }
            },
        }
    }
}

/// The commands of a path's `d` text, or `None` where the text is malformed.
pub fn parse_path(d: &str) -> (r: Option<Vec<PathCmd>>)
    ensures
        r matches Some(v) ==> sp_parse_path(d@) == Some(cmds_view(v@)) && wf_cmds(cmds_view(v@)),
        r is None ==> sp_parse_path(d@) is None,
{
    let s = chars_of(d);
    parse_path_chars(&s)
}

} // verus!

//! Reading path data from a position looks only at what lies from there on: two texts of
//! one length that agree from a position on read the same from it.
use vstd::prelude::*;

use super::grammar::{
    digits_end, is_arc, is_command, is_sep, scan_exponent, scan_number, skip_sep, NumScan,
    PCmd,
};
use super::number::is_digit;
use super::parse::{cons_opt, pp_args, pp_groups, pp_outer, ArgsScan, GroupsScan};

verus! {

/// Whether `s` and `t` have one length and the same characters from `p` on.
pub open spec fn agree_from(s: Seq<char>, t: Seq<char>, p: int) -> bool {
    &&& s.len() == t.len()
    &&& forall|k: int| p <= k < s.len() ==> s[k] == t[k]
}

pub proof fn lemma_agree_later(s: Seq<char>, t: Seq<char>, p: int, q: int)
    requires
        agree_from(s, t, p),
        p <= q,
    ensures
        agree_from(s, t, q),
{
}

pub proof fn lemma_skip_agree(s: Seq<char>, t: Seq<char>, p: int)
    requires
        agree_from(s, t, p),
        0 <= p,
    ensures
        skip_sep(s, p) == skip_sep(t, p),
    decreases s.len() - p,
{
    if 0 <= p < s.len() {
        lemma_skip_agree(s, t, p + 1);
    }
}

pub proof fn lemma_digits_agree(s: Seq<char>, t: Seq<char>, p: int)
    requires
        agree_from(s, t, p),
        0 <= p,
    ensures
        digits_end(s, p) == digits_end(t, p),
    decreases s.len() - p,
{
    if 0 <= p < s.len() {
        lemma_digits_agree(s, t, p + 1);
    }
}

proof fn lemma_exponent_agree(s: Seq<char>, t: Seq<char>, neg: bool, mant: int, f: int, q4: int)
    requires
        agree_from(s, t, q4),
        0 <= q4,
    ensures
        scan_exponent(s, neg, mant, f, q4) == scan_exponent(t, neg, mant, f, q4),
{
    if 0 <= q4 < s.len() && (s[q4] == 'e' || s[q4] == 'E') {
        let q5 = q4 + 1;
        let q6 = if q5 < s.len() && (s[q5] == '+' || s[q5] == '-') {
            q5 + 1
        } else {
            q5
        };
        lemma_digits_agree(s, t, q6);
        crate::path::grammar::lemma_digits_end_ge(s, q6);
        let q7 = digits_end(s, q6);
        if q7 > q6 {
            assert(s.subrange(q6, q7) =~= t.subrange(q6, q7));
        }
    }
}

pub proof fn lemma_scan_agree(s: Seq<char>, t: Seq<char>, p: int)
    requires
        agree_from(s, t, p),
        0 <= p,
    ensures
        scan_number(s, p) == scan_number(t, p),
{
    lemma_skip_agree(s, t, p);
    crate::path::grammar::lemma_skip_ge(s, p);
    let q0 = skip_sep(s, p);
    let q1 = if q0 < s.len() && (s[q0] == '-' || s[q0] == '+') {
        q0 + 1
    } else {
        q0
    };
    lemma_digits_agree(s, t, q1);
    crate::path::grammar::lemma_digits_end_ge(s, q1);
    let q2 = digits_end(s, q1);
    let q3 = if q2 < s.len() && s[q2] == '.' {
        q2 + 1
    } else {
        q2
    };
    lemma_digits_agree(s, t, q3);
    crate::path::grammar::lemma_digits_end_ge(s, q3);
    let q4 = digits_end(s, q3);
    if q2 > q1 || q4 > q3 {
        assert(s.subrange(q1, q2) =~= t.subrange(q1, q2));
        assert(s.subrange(q3, q4) =~= t.subrange(q3, q4));
    }
    let mant = crate::path::grammar::dval(s.subrange(q1, q2) + s.subrange(q3, q4));
    let neg = q0 < s.len() && s[q0] == '-';
    lemma_exponent_agree(s, t, neg, mant, q4 - q3, q4);
}

pub proof fn lemma_args_agree(s: Seq<char>, t: Seq<char>, p: int, c: char, i: int, n: int)
    requires
        agree_from(s, t, p),
        0 <= p,
    ensures
        pp_args(s, p, c, i, n) == pp_args(t, p, c, i, n),
    decreases n - i,
{
    if i < n {
        lemma_skip_agree(s, t, p);
        crate::path::grammar::lemma_skip_ge(s, p);
        let q = skip_sep(s, p);
        lemma_scan_agree(s, t, q);
        if 0 <= q < s.len() {
            lemma_args_agree(s, t, q + 1, c, i + 1, n);
        }
        if q <= s.len() {
            crate::path::grammar::lemma_scan_progress(s, q);
            match scan_number(s, q) {
                crate::path::grammar::NumScan::Num(v, e) => {
                    lemma_args_agree(s, t, e, c, i + 1, n);
                },
                _ => {},
            }
        }
    }
}

pub proof fn lemma_groups_agree(s: Seq<char>, t: Seq<char>, p: int, c: char)
    requires
        agree_from(s, t, p),
        0 <= p,
    ensures
        pp_groups(s, p, c) == pp_groups(t, p, c),
    decreases s.len() - p,
{
    lemma_skip_agree(s, t, p);
    crate::path::grammar::lemma_skip_ge(s, p);
    let q = skip_sep(s, p);
    if p <= s.len() && q < s.len() {
        let n = crate::path::grammar::argc(c) as int;
        lemma_args_agree(s, t, q, c, 0, n);
        super::parse::lemma_args_progress(s, q, c, 0, n);
        match pp_args(s, q, c, 0, n) {
            super::parse::ArgsScan::Done(a, e) => {
                if n > 0 {
                    lemma_groups_agree(s, t, e, crate::path::grammar::implicit_next(c));
                }
            },
            _ => {},
        }
    }
}

pub proof fn lemma_outer_agree(s: Seq<char>, t: Seq<char>, p: int, cur: Option<char>)
    requires
        agree_from(s, t, p),
        0 <= p,
    ensures
        pp_outer(s, p, cur) == pp_outer(t, p, cur),
    decreases s.len() - p,
{
    lemma_skip_agree(s, t, p);
    crate::path::grammar::lemma_skip_ge(s, p);
    let q = skip_sep(s, p);
    if q < s.len() {
        let read = crate::path::grammar::is_command(s[q]);
        if read {
            lemma_skip_agree(s, t, q + 1);
            crate::path::grammar::lemma_skip_ge(s, q + 1);
        }
        let q2 = if read {
            skip_sep(s, q + 1)
        } else {
            q
        };
        let cur2 = if read {
            Some(s[q])
        } else {
            cur
        };
        match cur2 {
            Some(c) => {
                if crate::path::grammar::argc(c) == 0 {
                    if q2 > p {
                        lemma_outer_agree(s, t, q2, None);
                    }
                } else {
                    lemma_groups_agree(s, t, q2, c);
                    super::parse::lemma_groups_bound(s, q2, c);
                    match pp_groups(s, q2, c) {
                        super::parse::GroupsScan::Done(cs, e, cl) => {
                            if e > p {
                                lemma_outer_agree(s, t, e, Some(cl));
                            }
                        },
                        _ => {},
                    }
                }
            },
            None => {},
        }
    }
}

// ---------------------------------------------------------------------------
// Reading a text that stands after `d` other characters.
// ---------------------------------------------------------------------------

/// Whether `t` holds `s` from its place `d` on, at least from the place `p` of `s`.
pub open spec fn holds_at(s: Seq<char>, t: Seq<char>, p: int, d: int) -> bool {
    &&& 0 <= d
    &&& t.len() == s.len() + d
    &&& forall|k: int| p <= k < s.len() ==> t[k + d] == s[k]
}

pub open spec fn shift_num(r: NumScan, d: int) -> NumScan {
    match r {
        NumScan::Num(v, e) => NumScan::Num(v, e + d),
        NumScan::NoNum(e) => NumScan::NoNum(e + d),
        NumScan::TooBig => NumScan::TooBig,
    }
}

pub open spec fn shift_args(r: ArgsScan, d: int) -> ArgsScan {
    match r {
        ArgsScan::Done(a, e) => ArgsScan::Done(a, e + d),
        ArgsScan::Stop(e) => ArgsScan::Stop(e + d),
        ArgsScan::Fail => ArgsScan::Fail,
    }
}

pub open spec fn shift_groups(r: GroupsScan, d: int) -> GroupsScan {
    match r {
        GroupsScan::Done(cs, e, c) => GroupsScan::Done(cs, e + d, c),
        GroupsScan::Fail => GroupsScan::Fail,
    }
}

pub proof fn lemma_skip_shift(s: Seq<char>, t: Seq<char>, p: int, d: int)
    requires
        holds_at(s, t, p, d),
        0 <= p,
    ensures
        skip_sep(t, p + d) == skip_sep(s, p) + d,
    decreases s.len() - p,
{
    if 0 <= p < s.len() {
        lemma_skip_shift(s, t, p + 1, d);
    }
}

pub proof fn lemma_digits_shift(s: Seq<char>, t: Seq<char>, p: int, d: int)
    requires
        holds_at(s, t, p, d),
        0 <= p,
    ensures
        digits_end(t, p + d) == digits_end(s, p) + d,
    decreases s.len() - p,
{
    if 0 <= p < s.len() {
        lemma_digits_shift(s, t, p + 1, d);
    }
}

proof fn lemma_value_shift(neg: bool, mant: int, f: int, e: int, end: int, d: int)
    ensures
        crate::path::grammar::number_value(neg, mant, f, e, end + d) == shift_num(
            crate::path::grammar::number_value(neg, mant, f, e, end),
            d,
        ),
{
}

proof fn lemma_exponent_shift(
    s: Seq<char>,
    t: Seq<char>,
    neg: bool,
    mant: int,
    f: int,
    q4: int,
    d: int,
)
    requires
        holds_at(s, t, q4, d),
        0 <= q4 <= s.len(),
    ensures
        scan_exponent(t, neg, mant, f, q4 + d) == shift_num(scan_exponent(s, neg, mant, f, q4), d),
{
    if q4 < s.len() && (s[q4] == 'e' || s[q4] == 'E') {
        let q5 = q4 + 1;
        let q6 = if q5 < s.len() && (s[q5] == '+' || s[q5] == '-') {
            q5 + 1
        } else {
            q5
        };
        lemma_digits_shift(s, t, q6, d);
        crate::path::grammar::lemma_digits_end_ge(s, q6);
        let q7 = digits_end(s, q6);
        assert(s.subrange(q6, q7) =~= t.subrange(q6 + d, q7 + d));
        let e = crate::path::grammar::min(
            crate::path::grammar::dval(s.subrange(q6, q7)),
            crate::path::grammar::EXP_CAP as int,
        );
        let eneg = q5 < s.len() && s[q5] == '-';
        lemma_value_shift(neg, mant, f, if eneg { -e } else { e }, q7, d);
    } else {
        lemma_value_shift(neg, mant, f, 0, q4, d);
    }
}

pub proof fn lemma_scan_shift(s: Seq<char>, t: Seq<char>, p: int, d: int)
    requires
        holds_at(s, t, p, d),
        0 <= p,
    ensures
        scan_number(t, p + d) == shift_num(scan_number(s, p), d),
{
    lemma_skip_shift(s, t, p, d);
    crate::path::grammar::lemma_skip_ge(s, p);
    let q0 = skip_sep(s, p);
    if q0 > s.len() {
        // past the end (only where `p` is): nothing is read
        crate::path::grammar::lemma_digits_end_ge(s, q0);
        lemma_digits_shift(s, t, q0, d);
    } else {
        let q1 = if q0 < s.len() && (s[q0] == '-' || s[q0] == '+') {
            q0 + 1
        } else {
            q0
        };
        lemma_digits_shift(s, t, q1, d);
        crate::path::grammar::lemma_digits_end_ge(s, q1);
        let q2 = digits_end(s, q1);
        let q3 = if q2 < s.len() && s[q2] == '.' {
            q2 + 1
        } else {
            q2
        };
        lemma_digits_shift(s, t, q3, d);
        crate::path::grammar::lemma_digits_end_ge(s, q3);
        let q4 = digits_end(s, q3);
        assert(s.subrange(q1, q2) =~= t.subrange(q1 + d, q2 + d));
        assert(s.subrange(q3, q4) =~= t.subrange(q3 + d, q4 + d));
        let mant = crate::path::grammar::dval(s.subrange(q1, q2) + s.subrange(q3, q4));
        let neg = q0 < s.len() && s[q0] == '-';
        if !(q2 == q1 && q4 == q3) {
            lemma_exponent_shift(s, t, neg, mant, q4 - q3, q4, d);
        }
    }
}

pub proof fn lemma_args_shift(s: Seq<char>, t: Seq<char>, p: int, c: char, i: int, n: int, d: int)
    requires
        holds_at(s, t, p, d),
        0 <= p,
    ensures
        pp_args(t, p + d, c, i, n) == shift_args(pp_args(s, p, c, i, n), d),
    decreases n - i,
{
    if i < n {
        lemma_skip_shift(s, t, p, d);
        crate::path::grammar::lemma_skip_ge(s, p);
        let q = skip_sep(s, p);
        lemma_scan_shift(s, t, q, d);
        if 0 <= q < s.len() {
            lemma_args_shift(s, t, q + 1, c, i + 1, n, d);
        }
        if q <= s.len() {
            crate::path::grammar::lemma_scan_progress(s, q);
            match scan_number(s, q) {
                NumScan::Num(v, e) => {
                    lemma_args_shift(s, t, e, c, i + 1, n, d);
                },
                _ => {},
            }
        }
    }
}

pub proof fn lemma_groups_shift(s: Seq<char>, t: Seq<char>, p: int, c: char, d: int)
    requires
        holds_at(s, t, p, d),
        0 <= p <= s.len(),
    ensures
        pp_groups(t, p + d, c) == shift_groups(pp_groups(s, p, c), d),
    decreases s.len() - p,
{
    lemma_skip_shift(s, t, p, d);
    crate::path::grammar::lemma_skip_ge(s, p);
    let q = skip_sep(s, p);
    if q < s.len() {
        let n = crate::path::grammar::argc(c) as int;
        lemma_args_shift(s, t, q, c, 0, n, d);
        super::parse::lemma_args_progress(s, q, c, 0, n);
        match pp_args(s, q, c, 0, n) {
            ArgsScan::Done(a, e) => {
                if n > 0 {
                    lemma_groups_shift(s, t, e, crate::path::grammar::implicit_next(c), d);
                }
            },
            _ => {},
        }
    }
}

pub proof fn lemma_outer_shift(s: Seq<char>, t: Seq<char>, p: int, cur: Option<char>, d: int)
    requires
        holds_at(s, t, p, d),
        0 <= p <= s.len(),
    ensures
        pp_outer(t, p + d, cur) == pp_outer(s, p, cur),
    decreases s.len() - p,
{
    lemma_skip_shift(s, t, p, d);
    crate::path::grammar::lemma_skip_ge(s, p);
    let q = skip_sep(s, p);
    if q < s.len() {
        let read = crate::path::grammar::is_command(s[q]);
        if read {
            lemma_skip_shift(s, t, q + 1, d);
            crate::path::grammar::lemma_skip_ge(s, q + 1);
        }
        let q2 = if read {
            skip_sep(s, q + 1)
        } else {
            q
        };
        let cur2 = if read {
            Some(s[q])
        } else {
            cur
        };
        match cur2 {
            Some(c) => {
                if crate::path::grammar::argc(c) == 0 {
                    if q2 > p {
                        lemma_outer_shift(s, t, q2, None, d);
                    }
                } else {
                    lemma_groups_shift(s, t, q2, c, d);
                    super::parse::lemma_groups_bound(s, q2, c);
                    match pp_groups(s, q2, c) {
                        GroupsScan::Done(cs, e, cl) => {
                            if e > p {
                                lemma_outer_shift(s, t, e, Some(cl), d);
                            }
                        },
                        _ => {},
                    }
                }
            },
            None => {},
        }
    }
}

// ---------------------------------------------------------------------------
// Reading a text that more path data follows.
// ---------------------------------------------------------------------------

/// Whether `w`, after separators, starts with a command letter.
pub open spec fn leads_command(w: Seq<char>) -> bool {
    skip_sep(w, 0) < w.len() && is_command(w[skip_sep(w, 0)])
}

/// Where reading `a + w` comes to after the end of `a`: the command that starts `w`.
pub open spec fn resume(a: Seq<char>, w: Seq<char>) -> int {
    a.len() + skip_sep(w, 0)
}

/// Facts about `t == a + w` that the lemmas below use.
pub proof fn lemma_joint(a: Seq<char>, w: Seq<char>)
    requires
        leads_command(w),
    ensures
        holds_at(w, a + w, 0, a.len() as int),
        skip_sep(a + w, a.len() as int) == resume(a, w),
        (a + w)[resume(a, w)] == w[skip_sep(w, 0)],
        is_command((a + w)[resume(a, w)]),
        resume(a, w) < (a + w).len(),
        !is_digit((a + w)[a.len() as int]),
        (a + w)[a.len() as int] != '.' && (a + w)[a.len() as int] != 'e' && (a + w)[a.len() as int]
            != 'E' && (a + w)[a.len() as int] != '+' && (a + w)[a.len() as int] != '-' && (a
            + w)[a.len() as int] != '0' && (a + w)[a.len() as int] != '1',
        forall|k: int| 0 <= k < a.len() ==> (a + w)[k] == a[k],
{
    let t = a + w;
    assert(holds_at(w, t, 0, a.len() as int));
    lemma_skip_shift(w, t, 0, a.len() as int);
    crate::path::grammar::lemma_skip_ge(w, 0);
    if is_sep(w[0]) {
        assert(skip_sep(w, 0) > 0) by {
            crate::path::grammar::lemma_skip_ge(w, 1);
        }
    } else {
        assert(skip_sep(w, 0) == 0);
    }
}

/// A separator run that ends at a command: starting anywhere in it reads alike.
pub proof fn lemma_skip_mid(s: Seq<char>, p: int, j: int)
    requires
        0 <= p <= j <= skip_sep(s, p),
    ensures
        skip_sep(s, j) == skip_sep(s, p),
    decreases j - p,
{
    if p < j {
        assert(p < s.len() && is_sep(s[p]));
        lemma_skip_mid(s, p + 1, j);
    }
}

/// Reading from two places that lead, over separators, to the same command reads alike.
pub proof fn lemma_outer_same_command(s: Seq<char>, p1: int, p2: int, c1: Option<char>, c2: Option<char>)
    requires
        0 <= p1,
        0 <= p2,
        skip_sep(s, p1) == skip_sep(s, p2),
        skip_sep(s, p1) < s.len(),
        is_command(s[skip_sep(s, p1)]),
    ensures
        pp_outer(s, p1, c1) == pp_outer(s, p2, c2),
{
    let r = skip_sep(s, p1);
    crate::path::grammar::lemma_skip_ge(s, p1);
    crate::path::grammar::lemma_skip_ge(s, p2);
    crate::path::grammar::lemma_skip_ge(s, r + 1);
    let q2 = skip_sep(s, r + 1);
    let c = s[r];
    if crate::path::grammar::argc(c) != 0 {
        super::parse::lemma_groups_bound(s, q2, c);
    }
}

pub proof fn lemma_skip_pre(a: Seq<char>, w: Seq<char>, p: int)
    requires
        leads_command(w),
        0 <= p <= a.len(),
    ensures
        skip_sep(a, p) <= a.len(),
        skip_sep(a, p) < a.len() ==> skip_sep(a + w, p) == skip_sep(a, p),
        skip_sep(a, p) == a.len() ==> skip_sep(a + w, p) == resume(a, w),
    decreases a.len() - p,
{
    lemma_joint(a, w);
    if p < a.len() && is_sep(a[p]) {
        lemma_skip_pre(a, w, p + 1);
    }
}

pub proof fn lemma_digits_pre(a: Seq<char>, w: Seq<char>, p: int)
    requires
        leads_command(w),
        0 <= p <= a.len(),
    ensures
        digits_end(a + w, p) == digits_end(a, p),
        digits_end(a, p) <= a.len(),
    decreases a.len() - p,
{
    lemma_joint(a, w);
    if p < a.len() && is_digit(a[p]) {
        lemma_digits_pre(a, w, p + 1);
    }
}

pub proof fn lemma_scan_pre(a: Seq<char>, w: Seq<char>, p: int)
    requires
        leads_command(w),
        0 <= p <= a.len(),
        skip_sep(a, p) < a.len(),
    ensures
        scan_number(a + w, p) == scan_number(a, p),
{
    let t = a + w;
    lemma_joint(a, w);
    lemma_skip_pre(a, w, p);
    crate::path::grammar::lemma_skip_ge(a, p);
    let q0 = skip_sep(a, p);
    let q1 = if q0 < a.len() && (a[q0] == '-' || a[q0] == '+') {
        q0 + 1
    } else {
        q0
    };
    lemma_digits_pre(a, w, q1);
    let q2 = digits_end(a, q1);
    crate::path::grammar::lemma_digits_end_ge(a, q1);
    let q3 = if q2 < a.len() && a[q2] == '.' {
        q2 + 1
    } else {
        q2
    };
    lemma_digits_pre(a, w, q3);
    crate::path::grammar::lemma_digits_end_ge(a, q3);
    let q4 = digits_end(a, q3);
    assert(a.subrange(q1, q2) =~= t.subrange(q1, q2));
    assert(a.subrange(q3, q4) =~= t.subrange(q3, q4));
    if q4 < a.len() && (a[q4] == 'e' || a[q4] == 'E') {
        let q5 = q4 + 1;
        let q6 = if q5 < a.len() && (a[q5] == '+' || a[q5] == '-') {
            q5 + 1
        } else {
            q5
        };
        lemma_digits_pre(a, w, q6);
        crate::path::grammar::lemma_digits_end_ge(a, q6);
        let q7 = digits_end(a, q6);
        assert(a.subrange(q6, q7) =~= t.subrange(q6, q7));
    }
}

/// `scan_number` at the end of `a`, and at the command that follows it in `a + w`, reads
/// no number.
proof fn lemma_scan_at_command(s: Seq<char>, q: int)
    requires
        0 <= q,
        q >= s.len() || is_command(s[q]),
        skip_sep(s, q) == q,
    ensures
        scan_number(s, q) is NoNum,
{
    crate::path::grammar::lemma_digits_end_ge(s, q);
}

pub proof fn lemma_args_pre(a: Seq<char>, w: Seq<char>, p: int, c: char, i: int, n: int)
    requires
        leads_command(w),
        0 <= p <= a.len(),
        0 <= i,
        i >= n || i > 0 || skip_sep(a, p) < a.len(),
    ensures
        pp_args(a + w, p, c, i, n) == pp_args(a, p, c, i, n),
    decreases n - i,
{
    if i < n {
        let t = a + w;
        lemma_joint(a, w);
        lemma_skip_pre(a, w, p);
        crate::path::grammar::lemma_skip_ge(a, p);
        let q = skip_sep(a, p);
        if q < a.len() {
            lemma_scan_pre(a, w, q);
            crate::path::grammar::lemma_skip_ge(a, q);
            if is_arc(c) && (i == 3 || i == 4) {
                lemma_args_pre(a, w, q + 1, c, i + 1, n);
            } else {
                crate::path::grammar::lemma_scan_progress(a, q);
                match scan_number(a, q) {
                    NumScan::Num(v, e) => {
                        lemma_args_pre(a, w, e, c, i + 1, n);
                    },
                    _ => {},
                }
            }
        } else {
            // both come to a command or the end where a number is due
            let r = resume(a, w);
            crate::path::grammar::lemma_skip_ge(t, p);
            lemma_scan_at_command(t, r);
            lemma_scan_at_command(a, q);
        }
    }
}

/// `e2` is where reading `a + w` ends when reading `a` ends at `e`: the same place, or the
/// command that starts `w` where `a` was read to its end.
pub open spec fn maps_end(a: Seq<char>, w: Seq<char>, e: int, e2: int) -> bool {
    e <= a.len() && (e2 == e || (e == a.len() && e2 == resume(a, w)))
}

pub proof fn lemma_groups_pre(a: Seq<char>, w: Seq<char>, p: int, c: char)
    requires
        leads_command(w),
        0 <= p <= a.len(),
    ensures
        match pp_groups(a, p, c) {
            GroupsScan::Fail => pp_groups(a + w, p, c) is Fail,
            GroupsScan::Done(cs, e, cl) => pp_groups(a + w, p, c) matches GroupsScan::Done(cs2, e2, cl2)
                && cs2 == cs && cl2 == cl && maps_end(a, w, e, e2),
        },
    decreases a.len() - p,
{
    let t = a + w;
    lemma_joint(a, w);
    lemma_skip_pre(a, w, p);
    crate::path::grammar::lemma_skip_ge(a, p);
    let q = skip_sep(a, p);
    if q < a.len() && crate::path::grammar::argc(c) != 0 && !is_command(a[q]) {
        let n = crate::path::grammar::argc(c) as int;
        crate::path::grammar::lemma_skip_ge(a, q);
        lemma_args_pre(a, w, q, c, 0, n);
        super::parse::lemma_args_progress(a, q, c, 0, n);
        match pp_args(a, q, c, 0, n) {
            ArgsScan::Done(x, e) => {
                lemma_groups_pre(a, w, e, crate::path::grammar::implicit_next(c));
            },
            _ => {},
        }
    }
}

proof fn lemma_cons_opt_assoc(x: Seq<PCmd>, y: Seq<PCmd>, r: Option<Seq<PCmd>>)
    ensures
        cons_opt(x, cons_opt(y, r)) == cons_opt(x + y, r),
{
    if r is Some {
        assert(x + (y + r.unwrap()) =~= (x + y) + r.unwrap());
    }
}

/// Reading `a` followed by `w` gives what reading `a` gives, then what reading from the
/// end of `a` on gives.
pub proof fn lemma_outer_pre(a: Seq<char>, w: Seq<char>, p: int, cur: Option<char>)
    requires
        leads_command(w),
        0 <= p <= a.len(),
        pp_outer(a, p, cur) is Some,
    ensures
        pp_outer(a + w, p, cur) == cons_opt(pp_outer(a, p, cur).unwrap(), pp_outer(a + w, a.len() as int, None)),
    decreases a.len() - p,
{
    let t = a + w;
    let n_a = a.len() as int;
    let r = resume(a, w);
    lemma_joint(a, w);
    lemma_skip_pre(a, w, p);
    crate::path::grammar::lemma_skip_ge(a, p);
    crate::path::grammar::lemma_skip_ge(t, p);
    crate::path::grammar::lemma_skip_ge(t, n_a);
    let q = skip_sep(a, p);
    if q >= n_a {
        lemma_outer_same_command(t, p, n_a, cur, None);
        assert(Seq::<PCmd>::empty() + pp_outer(t, n_a, None).unwrap_or(Seq::empty()) =~= pp_outer(
            t,
            n_a,
            None,
        ).unwrap_or(Seq::empty()));
    } else {
        let read = is_command(a[q]);
        if read {
            lemma_skip_pre(a, w, q + 1);
            crate::path::grammar::lemma_skip_ge(a, q + 1);
        }
        let q2 = if read {
            skip_sep(a, q + 1)
        } else {
            q
        };
        let q2t = if read {
            skip_sep(t, q + 1)
        } else {
            q
        };
        assert(maps_end(a, w, q2, q2t));
        let cur2 = if read {
            Some(a[q])
        } else {
            cur
        };
        let c = cur2.unwrap();
        if crate::path::grammar::argc(c) == 0 {
            let x2 = pp_outer(a, q2, None).unwrap();
            lemma_outer_pre(a, w, q2, None);
            if q2t != q2 {
                lemma_outer_same_command(t, q2t, q2, None, None);
                crate::path::grammar::lemma_skip_ge(t, q2);
                lemma_skip_mid(t, n_a, q2t);
                assert(pp_outer(a, q2, None) == Some(Seq::<PCmd>::empty()));
                lemma_outer_same_command(t, q2, n_a, None, None);
            }
            lemma_cons_opt_assoc(seq![PCmd { letter: c, args: seq![] }], x2, pp_outer(t, n_a, None));
        } else {
            lemma_groups_pre(a, w, q2, c);
            super::parse::lemma_groups_bound(a, q2, c);
            if q2t != q2 {
                // `a` was read to its end: no group there, nor at the command in `t`
                lemma_skip_mid(t, n_a, q2t);
                crate::path::grammar::lemma_skip_ge(t, q2t);
                assert(pp_groups(t, q2t, c) == GroupsScan::Done(seq![], q2t, c));
            }
            match pp_groups(a, q2, c) {
                GroupsScan::Done(cs, e, cl) => {
                    let e2 = pp_groups(t, q2t, c)->Done_1;
                    let x2 = pp_outer(a, e, Some(cl)).unwrap();
                    lemma_outer_pre(a, w, e, Some(cl));
                    if e2 != e {
                        lemma_skip_mid(t, n_a, e2);
                        assert(pp_outer(a, e, Some(cl)) == Some(Seq::<PCmd>::empty()));
                        lemma_outer_same_command(t, e2, n_a, Some(cl), None);
                        lemma_outer_same_command(t, e, n_a, Some(cl), None);
                    }
                    lemma_cons_opt_assoc(cs, x2, pp_outer(t, n_a, None));
                },
                _ => {},
            }
        }
    }
}

} // verus!

//! Reading back what is written: the text of optimized path data reads as path data.
use vstd::prelude::*;

use super::grammar::{PCmd, argc, lemma_skip_ge, implicit_next, is_arc, NumScan, digit_val, digits_end, dval, is_command, is_sep, lemma_dval_nonneg, number_value, scan_number, skip_sep};
use super::parse::{ArgsScan, GroupsScan, cons_cmd, cons_opt, pp_args, pp_groups, pp_outer, sp_parse_path};
use super::write::{serialize_path, emit_letter, has_prior_dot, needs_sep, write_args, write_cmd, write_from};
use super::number::{round_and_format, round_to, BOUND, SCALE, abs, dec_digits, digit_char, format_num, is_digit, lemma_pow10_add, lemma_pow10_pos, lemma_pow10_values, padded_digits, pow10, trim_zeros};

verus! {

/// Whether `w` occurs in `s` at `p`, stated character by character.
pub open spec fn at(s: Seq<char>, p: int, w: Seq<char>) -> bool {
    &&& 0 <= p
    &&& p + w.len() <= s.len()
    &&& forall|i: int| 0 <= i < w.len() ==> s[p + i] == #[trigger] w[i]
}

pub open spec fn all_digits(s: Seq<char>) -> bool {
    forall|i: int| 0 <= i < s.len() ==> is_digit(#[trigger] s[i])
}

proof fn lemma_digit_char(d: int)
    requires
        0 <= d < 10,
    ensures
        is_digit(digit_char(d)),
        digit_val(digit_char(d)) == d,
{
}

proof fn lemma_dval_append(a: Seq<char>, b: Seq<char>)
    ensures
        dval(a + b) == dval(a) * pow10(b.len()) + dval(b),
    decreases b.len(),
{
    if b.len() == 0 {
        assert(a + b =~= a);
        assert(pow10(0) == 1);
        assert(dval(b) == 0);
        let x = dval(a);
        assert(x * 1 == x) by (nonlinear_arith);
    } else {
        let b1 = b.drop_last();
        lemma_dval_append(a, b1);
        assert((a + b).drop_last() =~= a + b1);
        assert((a + b).last() == b.last());
        let x = dval(a);
        let k = b1.len();
        let d = digit_val(b.last());
        assert(dval(a + b) == dval(a + b1) * 10 + d);
        assert(dval(b) == dval(b1) * 10 + d);
        assert(dval(a + b1) == x * pow10(k) + dval(b1));
        assert(pow10(b.len()) == 10 * pow10(k));
        assert(x * (10 * pow10(k)) == (x * pow10(k)) * 10) by (nonlinear_arith);
    }
}

proof fn lemma_dval_dec(n: nat)
    ensures
        dval(dec_digits(n)) == n,
        all_digits(dec_digits(n)),
        dec_digits(n).len() >= 1,
    decreases n,
{
    if n < 10 {
        lemma_digit_char(n as int);
        let s = dec_digits(n);
        assert(s == seq![digit_char(n as int)]);
        assert(s.drop_last() =~= Seq::<char>::empty());
        assert(dval(s.drop_last()) == 0);
        assert(dval(s) == dval(s.drop_last()) * 10 + digit_val(s.last()));
    } else {
        lemma_dval_dec(n / 10);
        lemma_digit_char((n % 10) as int);
        let s = dec_digits(n);
        assert(s.drop_last() =~= dec_digits(n / 10));
        assert(dval(s) == dval(s.drop_last()) * 10 + digit_val(s.last()));
        assert(s.last() == digit_char((n % 10) as int));
    }
}

proof fn lemma_dval_padded(n: nat, k: nat)
    ensures
        dval(padded_digits(n, k)) == n % pow10(k),
        all_digits(padded_digits(n, k)),
        padded_digits(n, k).len() == k,
    decreases k,
{
    lemma_pow10_pos(k);
    if k > 0 {
        let k1 = (k - 1) as nat;
        lemma_dval_padded(n / 10, k1);
        lemma_digit_char((n % 10) as int);
        assert(padded_digits(n, k).drop_last() =~= padded_digits(n / 10, k1));
        lemma_pow10_pos(k1);
        let m = pow10(k1) as int;
        let ni = n as int;
        assert(pow10(k) == 10 * m);
        vstd::arithmetic::div_mod::lemma_mod_breakdown(ni, 10, m);
    }
}

proof fn lemma_dval_trim(s: Seq<char>)
    requires
        all_digits(s),
    ensures
        dval(trim_zeros(s)) * pow10((s.len() - trim_zeros(s).len()) as nat) == dval(s),
        trim_zeros(s).len() <= s.len(),
        trim_zeros(s) == s.take(trim_zeros(s).len() as int),
        trim_zeros(s).len() == 0 || trim_zeros(s).last() != '0',
    decreases s.len(),
{
    if s.len() > 0 && s.last() == '0' {
        let t = s.drop_last();
        assert(all_digits(t)) by {
            assert forall|i: int| 0 <= i < t.len() implies is_digit(#[trigger] t[i]) by {
                assert(t[i] == s[i]);
            }
        }
        lemma_dval_trim(t);
        assert(trim_zeros(s) == trim_zeros(t));
        let k = (t.len() - trim_zeros(t).len()) as nat;
        assert((s.len() - trim_zeros(s).len()) as nat == k + 1);
        assert(pow10(k + 1) == 10 * pow10(k));
        let x = dval(trim_zeros(t));
        assert(x * (10 * pow10(k)) == (x * pow10(k)) * 10) by (nonlinear_arith);
        assert(dval(s) == dval(t) * 10 + digit_val(s.last()));
        assert(digit_val('0') == 0);
        assert(t.take(trim_zeros(t).len() as int) =~= s.take(trim_zeros(t).len() as int));
    } else {
        assert(trim_zeros(s) == s);
        assert((s.len() - s.len()) as nat == 0);
        assert(pow10(0) == 1);
        let x = dval(s);
        assert(x * 1 == x) by (nonlinear_arith);
        assert(s.take(s.len() as int) =~= s);
    }
}

/// The characters that may follow a number's text so that reading stops right after it.
pub open spec fn ends_number(c: char, has_dot: bool) -> bool {
    is_sep(c) || is_command(c) || c == '-' || (c == '.' && has_dot)
}

proof fn lemma_at_split(s: Seq<char>, p: int, a: Seq<char>, b: Seq<char>)
    requires
        at(s, p, a + b),
    ensures
        at(s, p, a),
        at(s, p + a.len(), b),
{
    assert forall|i: int| 0 <= i < a.len() implies s[p + i] == #[trigger] a[i] by {
        assert((a + b)[i] == a[i]);
    }
    assert forall|i: int| 0 <= i < b.len() implies s[p + a.len() + i] == #[trigger] b[i] by {
        assert((a + b)[a.len() + i] == b[i]);
    }
}

proof fn lemma_digits_window(s: Seq<char>, p: int, w: Seq<char>)
    requires
        at(s, p, w),
        all_digits(w),
        p + w.len() == s.len() || !is_digit(s[p + w.len()]),
    ensures
        digits_end(s, p) == p + w.len(),
        s.subrange(p, p + w.len()) == w,
    decreases w.len(),
{
    assert(s.subrange(p, p + w.len()) =~= w);
    if w.len() > 0 {
        assert(s[p + 0] == w[0]);
        let w1 = w.drop_first();
        assert forall|i: int| 0 <= i < w1.len() implies s[p + 1 + i] == #[trigger] w1[i] by {
            assert(s[p + (i + 1)] == w[i + 1]);
        }
        assert(all_digits(w1)) by {
            assert forall|i: int| 0 <= i < w1.len() implies is_digit(#[trigger] w1[i]) by {
                assert(w1[i] == w[i + 1]);
            }
        }
        lemma_digits_window(s, p + 1, w1);
    }
}

proof fn lemma_not_sep_start(s: Seq<char>, q: int)
    requires
        0 <= q < s.len(),
        !is_sep(s[q]),
    ensures
        skip_sep(s, q) == q,
{
}

/// The parts of a coordinate's text: sign, integer digits, fraction digits.
pub open spec fn int_part(v: int) -> Seq<char> {
    let ip = abs(v) / (SCALE as int);
    if ip == 0 {
        seq![]
    } else {
        dec_digits(ip as nat)
    }
}

pub open spec fn frac_part(v: int) -> Seq<char> {
    let fp = abs(v) % (SCALE as int);
    if fp == 0 {
        seq![]
    } else {
        trim_zeros(padded_digits(fp as nat, 10))
    }
}

pub open spec fn sign_part(v: int) -> Seq<char> {
    if v < 0 {
        seq!['-']
    } else {
        seq![]
    }
}

proof fn lemma_format_parts(v: int)
    requires
        v != 0,
    ensures
        format_num(v) == sign_part(v) + int_part(v) + (if frac_part(v).len() == 0 {
            Seq::<char>::empty()
        } else {
            seq!['.'] + frac_part(v)
        }),
        all_digits(int_part(v)),
        all_digits(frac_part(v)),
        int_part(v).len() > 0 || frac_part(v).len() > 0,
        frac_part(v).len() <= 10,
        dval(int_part(v)) * pow10(10) + dval(frac_part(v)) * pow10(
            (10 - frac_part(v).len()) as nat,
        ) == abs(v),
        format_num(v).contains('.') == (frac_part(v).len() > 0),
{
    let m = abs(v);
    let ip = m / (SCALE as int);
    let fp = m % (SCALE as int);
    lemma_pow10_values();
    if ip != 0 {
        lemma_dval_dec(ip as nat);
    }
    lemma_dval_padded(fp as nat, 10);
    let pd = padded_digits(fp as nat, 10);
    lemma_dval_trim(pd);
    let t = trim_zeros(pd);
    assert(all_digits(t)) by {
        assert forall|i: int| 0 <= i < t.len() implies is_digit(#[trigger] t[i]) by {
            assert(t[i] == pd.take(t.len() as int)[i]);
        }
    }
    if fp != 0 {
        assert(fp % (pow10(10) as int) == fp);
        if t.len() == 0 {
            assert(dval(t) == 0);
            assert(0 * pow10((10 - t.len()) as nat) == 0);
        }
    } else {
        assert(dval(frac_part(v)) == 0);
        assert(0 * pow10(10) == 0);
    }
    if ip == 0 {
        assert(dval(int_part(v)) == 0);
        assert(0 * pow10(10) == 0);
    }
    assert(m == ip * (SCALE as int) + fp);
    let fpart: Seq<char> = if frac_part(v).len() == 0 {
        Seq::<char>::empty()
    } else {
        seq!['.'] + frac_part(v)
    };
    assert(format_num(v) =~= sign_part(v) + int_part(v) + fpart);
    let f = format_num(v);
    if frac_part(v).len() > 0 {
        assert(f[(sign_part(v).len() + int_part(v).len()) as int] == '.');
    } else {
        assert(!f.contains('.')) by {
            if f.contains('.') {
                let j = choose|j: int| 0 <= j < f.len() && f[j] == '.';
                if j < sign_part(v).len() {
                } else {
                    assert(f[j] == int_part(v)[j - sign_part(v).len()]);
                }
            }
        }
    }
}

/// A coordinate's text, followed by a character that ends a number, reads back as the
/// coordinate.
pub proof fn lemma_scan_format(s: Seq<char>, q: int, v: int)
    requires
        abs(v) <= BOUND,
        at(s, q, format_num(v)),
        q + format_num(v).len() == s.len() || ends_number(
            s[q + format_num(v).len()],
            format_num(v).contains('.'),
        ),
    ensures
        scan_number(s, q) == NumScan::Num(v, q + format_num(v).len()),
{
    let f = format_num(v);
    let e = q + f.len();
    lemma_pow10_values();
    if v == 0 {
        assert(f == seq!['0']);
        assert(s[q] == f[0]);
        lemma_not_sep_start(s, q);
        lemma_digits_window(s, q, f);
        assert(!f.contains('.')) by {
            if f.contains('.') {
                let j = choose|j: int| 0 <= j < f.len() && f[j] == '.';
            }
        }
        lemma_digits_window(s, q + 1, Seq::<char>::empty());
        assert(s.subrange(q + 1, q + 1) =~= Seq::<char>::empty());
        assert(f + Seq::<char>::empty() =~= f);
        assert(dval(f) == dval(f.drop_last()) * 10 + digit_val(f.last()));
        assert(f.drop_last() =~= Seq::<char>::empty());
        assert(dval(f) == 0);
        assert(0 * pow10(10) == 0);
    } else {
        lemma_format_parts(v);
        let sg = sign_part(v);
        let ip = int_part(v);
        let fr = frac_part(v);
        let dotp: Seq<char> = if fr.len() == 0 {
            Seq::<char>::empty()
        } else {
            seq!['.'] + fr
        };
        assert(f == sg + ip + dotp);
        lemma_at_split(s, q, sg + ip, dotp);
        lemma_at_split(s, q, sg, ip);
        let q1 = q + sg.len();
        let q2 = q1 + ip.len();
        assert(s[q] == f[0]);
        if v < 0 {
            assert(f[0] == '-');
        } else if ip.len() > 0 {
            assert(f[0] == ip[0]);
            assert(is_digit(ip[0]));
        } else {
            assert(f[0] == '.');
        }
        lemma_not_sep_start(s, q);
        if fr.len() > 0 {
            lemma_at_split(s, q2, seq!['.'], fr);
            assert(s[q2] == '.');
            lemma_digits_window(s, q1, ip);
            let q3 = q2 + 1;
            assert(q3 + fr.len() == e);
            lemma_digits_window(s, q3, fr);
        } else {
            assert(q2 == e);
            lemma_digits_window(s, q1, ip);
            lemma_digits_window(s, q2, Seq::<char>::empty());
            assert(s.subrange(q2, q2) =~= Seq::<char>::empty());
            assert(ip + Seq::<char>::empty() =~= ip);
        }
        let mant = dval(ip + fr);
        lemma_dval_append(ip, fr);
        let t = fr.len();
        let a = dval(ip);
        let b = dval(fr);
        lemma_dval_nonneg(ip);
        lemma_dval_nonneg(fr);
        let pt = pow10(t) as int;
        let pr = pow10((10 - t) as nat) as int;
        lemma_pow10_add(t, (10 - t) as nat);
        assert(t + (10 - t) as nat == 10);
        lemma_pow10_pos(t);
        lemma_pow10_pos((10 - t) as nat);
        assert((a * pt + b) * pr == a * (pt * pr) + b * pr) by (nonlinear_arith);
        assert(mant <= mant * pr) by (nonlinear_arith)
            requires
                mant >= 0,
                pr >= 1,
        ;
        assert(mant * pr == abs(v));
        assert(number_value(v < 0, mant, t as int, 0, e) == NumScan::Num(v, e));
    }
}

pub open spec fn is_prefix(a: Seq<char>, b: Seq<char>) -> bool {
    a.len() <= b.len() && b.take(a.len() as int) == a
}

proof fn lemma_prefix_trans(a: Seq<char>, b: Seq<char>, c: Seq<char>)
    requires
        is_prefix(a, b),
        is_prefix(b, c),
    ensures
        is_prefix(a, c),
{
    assert(c.take(a.len() as int) =~= b.take(a.len() as int));
}

proof fn lemma_prefix_index(a: Seq<char>, b: Seq<char>, i: int)
    requires
        is_prefix(a, b),
        0 <= i < a.len(),
    ensures
        b[i] == a[i],
{
    assert(b.take(a.len() as int)[i] == b[i]);
}

proof fn lemma_prefix_append(a: Seq<char>, b: Seq<char>)
    ensures
        is_prefix(a, a + b),
{
    assert((a + b).take(a.len() as int) =~= a);
}

proof fn lemma_prefix_refl(a: Seq<char>)
    ensures
        is_prefix(a, a),
{
    assert(a.take(a.len() as int) =~= a);
}

/// The text written for one number after `o`: a space where one is needed, then the
/// number.
pub open spec fn arg_step(o: Seq<char>, after_letter: bool, v: int, p: nat) -> Seq<char> {
    let t = round_and_format(v, p);
    let sep = !after_letter && needs_sep(o, t);
    (if sep {
        o.push(' ')
    } else {
        o
    }) + t
}

proof fn lemma_write_args_step(o: Seq<char>, al: bool, args: Seq<int>, p: nat)
    requires
        args.len() > 0,
    ensures
        write_args(o, al, args, p) == write_args(arg_step(o, al, args[0], p), false, args.drop_first(), p),
{
}

proof fn lemma_write_args_prefix(o: Seq<char>, al: bool, args: Seq<int>, p: nat)
    ensures
        is_prefix(o, write_args(o, al, args, p)),
    decreases args.len(),
{
    if args.len() == 0 {
        lemma_prefix_refl(o);
    } else {
        let o2 = arg_step(o, al, args[0], p);
        lemma_write_args_prefix(o2, false, args.drop_first(), p);
        let t = round_and_format(args[0], p);
        assert(is_prefix(o, o2)) by {
            if o2.len() > o.len() + t.len() {
                assert(o2 == o.push(' ') + t);
                assert(o2 =~= o + (seq![' '] + t));
                lemma_prefix_append(o, seq![' '] + t);
            } else {
                lemma_prefix_append(o, t);
            }
        }
        lemma_prefix_trans(o, o2, write_args(o, al, args, p));
    }
}

proof fn lemma_write_cmd_prefix(o: Seq<char>, prev: Option<char>, c: PCmd, p: nat)
    ensures
        is_prefix(o, write_cmd(o, prev, c, p)),
{
    let e = emit_letter(prev, c.letter);
    let o1 = if e {
        o.push(c.letter)
    } else {
        o
    };
    lemma_write_args_prefix(o1, e, c.args, p);
    if e {
        assert(o.push(c.letter) =~= o + seq![c.letter]);
        lemma_prefix_append(o, seq![c.letter]);
        lemma_prefix_trans(o, o1, write_cmd(o, prev, c, p));
    }
}

proof fn lemma_write_from_prefix(o: Seq<char>, prev: Option<char>, cmds: Seq<PCmd>, p: nat)
    ensures
        is_prefix(o, write_from(o, prev, cmds, p)),
    decreases cmds.len(),
{
    if cmds.len() == 0 {
        lemma_prefix_refl(o);
    } else {
        let o1 = write_cmd(o, prev, cmds[0], p);
        lemma_write_cmd_prefix(o, prev, cmds[0], p);
        lemma_write_from_prefix(o1, Some(cmds[0].letter), cmds.drop_first(), p);
        lemma_prefix_trans(o, o1, write_from(o, prev, cmds, p));
    }
}

/// The letter of the command before the `k`-th, if any.
pub open spec fn prev_at(cmds: Seq<PCmd>, k: int) -> Option<char> {
    if k == 0 {
        None
    } else {
        Some(cmds[k - 1].letter)
    }
}

/// The text written for the first `k` commands.
pub open spec fn out_at(cmds: Seq<PCmd>, k: int, p: nat) -> Seq<char> {
    write_from(seq![], None, cmds.take(k), p)
}

proof fn lemma_write_from_push(o: Seq<char>, prev: Option<char>, a: Seq<PCmd>, x: PCmd, p: nat)
    ensures
        write_from(o, prev, a.push(x), p) == write_cmd(
            write_from(o, prev, a, p),
            if a.len() == 0 {
                prev
            } else {
                Some(a.last().letter)
            },
            x,
            p,
        ),
    decreases a.len(),
{
    if a.len() == 0 {
        assert(a.push(x).drop_first() =~= Seq::<PCmd>::empty());
        assert(a.push(x)[0] == x);
        let w = write_cmd(o, prev, x, p);
        assert(write_from(w, Some(x.letter), Seq::<PCmd>::empty(), p) == w);
        assert(write_from(o, prev, a.push(x), p) == write_from(
            w,
            Some(x.letter),
            a.push(x).drop_first(),
            p,
        ));
        assert(write_from(o, prev, a, p) == o);
    } else {
        let o1 = write_cmd(o, prev, a[0], p);
        lemma_write_from_push(o1, Some(a[0].letter), a.drop_first(), x, p);
        assert(a.push(x).drop_first() =~= a.drop_first().push(x));
        assert(a.push(x)[0] == a[0]);
        assert(write_from(o, prev, a.push(x), p) == write_from(
            o1,
            Some(a[0].letter),
            a.push(x).drop_first(),
            p,
        ));
        assert(write_from(o, prev, a, p) == write_from(o1, Some(a[0].letter), a.drop_first(), p));
        if a.len() > 1 {
            assert(a.drop_first().last() == a.last());
        }
    }
}

proof fn lemma_out_step(cmds: Seq<PCmd>, k: int, p: nat)
    requires
        0 <= k < cmds.len(),
    ensures
        out_at(cmds, k + 1, p) == write_cmd(out_at(cmds, k, p), prev_at(cmds, k), cmds[k], p),
{
    assert(cmds.take(k + 1) =~= cmds.take(k).push(cmds[k]));
    lemma_write_from_push(seq![], None, cmds.take(k), cmds[k], p);
    if k > 0 {
        assert(cmds.take(k).last() == cmds[k - 1]);
    }
}

proof fn lemma_out_prefix(cmds: Seq<PCmd>, k: int, j: int, p: nat)
    requires
        0 <= k <= j <= cmds.len(),
    ensures
        is_prefix(out_at(cmds, k, p), out_at(cmds, j, p)),
    decreases j - k,
{
    if k == j {
        lemma_prefix_refl(out_at(cmds, k, p));
    } else {
        lemma_out_prefix(cmds, k, j - 1, p);
        lemma_out_step(cmds, j - 1, p);
        lemma_write_cmd_prefix(out_at(cmds, j - 1, p), prev_at(cmds, j - 1), cmds[j - 1], p);
        lemma_prefix_trans(out_at(cmds, k, p), out_at(cmds, j - 1, p), out_at(cmds, j, p));
    }
}

proof fn lemma_hpd_digits(x: Seq<char>, d: Seq<char>)
    requires
        all_digits(d),
    ensures
        has_prior_dot(x + d) == has_prior_dot(x),
    decreases d.len(),
{
    if d.len() == 0 {
        assert(x + d =~= x);
    } else {
        let d1 = d.drop_last();
        assert(all_digits(d1)) by {
            assert forall|i: int| 0 <= i < d1.len() implies is_digit(#[trigger] d1[i]) by {
                assert(d1[i] == d[i]);
            }
        }
        lemma_hpd_digits(x, d1);
        assert((x + d).drop_last() =~= x + d1);
        assert((x + d).last() == d.last());
        assert(is_digit(d[d.len() - 1]));
    }
}

/// The shape of a coordinate's text: it starts with `-`, `.` or a digit, ends with a
/// digit, and the number at the end of `o + text` holds a point exactly when the text does
/// (where `o` does not end in a digit or point, or the text starts with a sign or point).
proof fn lemma_token_shape(o: Seq<char>, v: int)
    ensures
        format_num(v).len() >= 1,
        format_num(v)[0] == '-' || format_num(v)[0] == '.' || is_digit(format_num(v)[0]),
        is_digit(format_num(v).last()),
        (o.len() == 0 || !(is_digit(o.last()) || o.last() == '.') || format_num(v)[0] == '-'
            || format_num(v)[0] == '.') ==> has_prior_dot(o + format_num(v)) == format_num(
            v,
        ).contains('.'),
{
    let f = format_num(v);
    if v == 0 {
        assert(f == seq!['0']);
        assert(all_digits(f));
        lemma_hpd_digits(o, f);
        assert(!f.contains('.')) by {
            if f.contains('.') {
                let j = choose|j: int| 0 <= j < f.len() && f[j] == '.';
            }
        }
        if o.len() > 0 && !(is_digit(o.last()) || o.last() == '.') {
            assert(!has_prior_dot(o));
        }
    } else {
        lemma_format_parts(v);
        let sg = sign_part(v);
        let ip = int_part(v);
        let fr = frac_part(v);
        if fr.len() > 0 {
            assert(f =~= (sg + ip + seq!['.']) + fr);
            assert(f.last() == fr.last());
            assert(is_digit(fr[fr.len() - 1]));
            assert(o + f =~= (o + sg + ip + seq!['.']) + fr);
            lemma_hpd_digits(o + sg + ip + seq!['.'], fr);
            assert((o + sg + ip + seq!['.']).last() == '.');
        } else {
            assert(f =~= sg + ip);
            assert(f.last() == ip.last());
            assert(is_digit(ip[ip.len() - 1]));
            assert(o + f =~= (o + sg) + ip);
            lemma_hpd_digits(o + sg, ip);
            if v < 0 {
                assert((o + sg).last() == '-');
            } else {
                assert(o + sg =~= o);
                if f[0] == '-' || f[0] == '.' {
                    assert(f[0] == ip[0]);
                    assert(is_digit(ip[0]));
                }
            }
        }
        if v < 0 {
            assert(f[0] == '-');
        } else if ip.len() > 0 {
            assert(f[0] == ip[0]);
            assert(is_digit(ip[0]));
        } else {
            assert(f[0] == '.');
        }
    }
}

proof fn lemma_flag_tokens(p: nat)
    ensures
        round_and_format(0, p) == seq!['0'],
        round_and_format(SCALE as int, p) == seq!['1'],
        round_to(0, p) == 0,
        round_to(SCALE as int, p) == SCALE as int,
{
    lemma_pow10_values();
    if p < 10 {
        let m = pow10((10 - p) as nat) as int;
        lemma_pow10_pos((10 - p) as nat);
        lemma_pow10_pos(p);
        let k = pow10(p) as int;
        lemma_pow10_add((10 - p) as nat, p);
        assert((10 - p) as nat + p == 10);
        assert(SCALE as int == m * k);
        assert((2 * (m * k) + m) / (2 * m) == k) by (nonlinear_arith)
            requires
                m >= 1,
                k >= 1,
        ;
        assert((2 * 0 + m) / (2 * m) == 0) by (nonlinear_arith)
            requires
                m >= 1,
        ;
        assert(0 * m == 0);
        assert(k * m == m * k) by (nonlinear_arith);
    }
    assert(round_to(SCALE as int, p) == SCALE as int);
    assert(dec_digits(1) == seq![digit_char(1)]);
    let sc = SCALE as int;
    assert(abs(sc) / sc == 1);
    assert(abs(sc) % sc == 0);
    assert(format_num(sc) =~= seq!['1']);
}

/// A number that writes as text that reads back: an arc flag (places 3 and 4 of an arc)
/// is 0 or 1; any other number stays within bounds once rounded.
pub open spec fn arg_ok(c: char, idx: int, v: int, p: nat) -> bool {
    if is_arc(c) && (idx == 3 || idx == 4) {
        v == 0 || v == SCALE as int
    } else {
        abs(round_to(v, p)) <= BOUND
    }
}

proof fn lemma_skip_to_token(t: Seq<char>, o: Seq<char>, al: bool, v: int, p: nat)
    requires
        is_prefix(arg_step(o, al, v, p), t),
        al ==> o.len() > 0 && is_command(o.last()),
        !al ==> o.len() > 0 && is_digit(o.last()),
    ensures
        ({
            let tok = round_and_format(v, p);
            let o2 = arg_step(o, al, v, p);
            let q = o2.len() - tok.len();
            &&& skip_sep(t, o.len() as int) == q
            &&& at(t, q, tok)
            &&& (q > o.len() ==> t[o.len() as int] == ' ')
            &&& has_prior_dot(o2) == tok.contains('.')
            &&& is_digit(o2.last())
            &&& o2.len() > o.len()
        }),
{
    let tok = round_and_format(v, p);
    let o2 = arg_step(o, al, v, p);
    let sep = !al && needs_sep(o, tok);
    let pre = if sep {
        o.push(' ')
    } else {
        o
    };
    lemma_token_shape(pre, round_to(v, p));
    assert(o2 == pre + tok);
    let q = pre.len() as int;
    assert forall|i: int| 0 <= i < tok.len() implies t[q + i] == #[trigger] tok[i] by {
        lemma_prefix_index(o2, t, q + i);
        assert(o2[q + i] == tok[i]);
    }
    lemma_prefix_index(o2, t, q);
    assert(t[q] == tok[0]);
    assert(!is_sep(tok[0]));
    if sep {
        lemma_prefix_index(o2, t, o.len() as int);
        assert(o2[o.len() as int] == ' ');
        assert(skip_sep(t, o.len() as int) == skip_sep(t, o.len() as int + 1));
        assert(pre.last() == ' ');
    } else {
        if is_digit(tok[0]) {
            if al {
                assert(!is_digit(o.last()));
            } else {
                assert(!(is_digit(o.last()) || o.last() == '.'));
            }
        }
    }
    assert(o2.last() == tok.last());
}

/// Numbers rounded to `p` places.
pub open spec fn round_all(s: Seq<int>, p: nat) -> Seq<int> {
    Seq::new(s.len(), |j: int| round_to(s[j], p))
}

/// The numbers of a command, as written, read back rounded.
#[verifier::spinoff_prover]
#[verifier::rlimit(40)]
proof fn lemma_args_read(
    t: Seq<char>,
    o: Seq<char>,
    al: bool,
    args: Seq<int>,
    c: char,
    i: int,
    n: int,
    p: nat,
)
    requires
        0 <= i <= n,
        args.len() == n - i,
        is_prefix(write_args(o, al, args, p), t),
        al ==> o.len() > 0 && is_command(o.last()),
        !al ==> o.len() > 0 && is_digit(o.last()),
        forall|j: int| 0 <= j < args.len() ==> arg_ok(c, i + j, #[trigger] args[j], p),
        args.len() > 0 ==> write_args(o, al, args, p).len() == t.len() || ends_number(
            t[write_args(o, al, args, p).len() as int],
            has_prior_dot(write_args(o, al, args, p)),
        ),
    ensures
        pp_args(t, o.len() as int, c, i, n) matches ArgsScan::Done(a, e) && e == write_args(
            o,
            al,
            args,
            p,
        ).len() && a == round_all(args, p),
    decreases args.len(),
{
    if args.len() > 0 {
        let v = args[0];
        let rest = args.drop_first();
        let tok = round_and_format(v, p);
        let o2 = arg_step(o, al, v, p);
        lemma_write_args_step(o, al, args, p);
        let w = write_args(o, al, args, p);
        assert(w == write_args(o2, false, rest, p));
        lemma_write_args_prefix(o2, false, rest, p);
        lemma_prefix_trans(o2, w, t);
        lemma_skip_to_token(t, o, al, v, p);
        let q = o2.len() - tok.len();
        assert(arg_ok(c, i, v, p));
        assert forall|j: int| 0 <= j < rest.len() implies arg_ok(c, (i + 1) + j, #[trigger] rest[j], p) by {
            assert(rest[j] == args[j + 1]);
            assert(arg_ok(c, i + (j + 1), args[j + 1], p));
        }
        // what follows the token
        if rest.len() > 0 {
            let v2 = rest[0];
            let tok2 = round_and_format(v2, p);
            lemma_write_args_step(o2, false, rest, p);
            let o3 = arg_step(o2, false, v2, p);
            lemma_write_args_prefix(o3, false, rest.drop_first(), p);
            lemma_prefix_trans(o3, w, t);
            lemma_token_shape(o2, round_to(v2, p));
            lemma_prefix_index(o3, t, o2.len() as int);
            if needs_sep(o2, tok2) {
                assert(o3[o2.len() as int] == ' ');
            } else {
                assert(o3 == o2 + tok2);
                assert(o3[o2.len() as int] == tok2[0]);
                if is_digit(tok2[0]) {
                    assert(needs_sep(o2, tok2));
                }
            }
            assert(ends_number(t[o2.len() as int], has_prior_dot(o2)));
        }
        if is_arc(c) && (i == 3 || i == 4) {
            lemma_flag_tokens(p);
            assert(tok == seq!['0'] || tok == seq!['1']);
            assert(t[q] == tok[0]);
            lemma_args_read(t, o2, false, rest, c, i + 1, n, p);
        } else {
            lemma_scan_format(t, q, round_to(v, p));
            lemma_args_read(t, o2, false, rest, c, i + 1, n, p);
        }
        if let ArgsScan::Done(a2, e2) = pp_args(t, o2.len() as int, c, i + 1, n) {
            assert(seq![round_to(v, p)] + a2 =~= round_all(args, p));
        }
    } else {
        assert(write_args(o, al, args, p) == o);
        assert(round_all(args, p) =~= Seq::<int>::empty());
    }
}

/// Whether the `i`-th command's letter is written.
pub open spec fn emit_at(cmds: Seq<PCmd>, i: int) -> bool {
    emit_letter(prev_at(cmds, i), cmds[i].letter)
}

/// The text after which the numbers of the `i`-th command are written.
pub open spec fn start_at(cmds: Seq<PCmd>, i: int, p: nat) -> Seq<char> {
    if emit_at(cmds, i) {
        out_at(cmds, i, p).push(cmds[i].letter)
    } else {
        out_at(cmds, i, p)
    }
}

/// The first command from the `i`-th on whose letter is written, or the count of commands.
pub open spec fn next_emit(cmds: Seq<PCmd>, i: int) -> int
    decreases cmds.len() - i,
{
    if i >= cmds.len() {
        cmds.len() as int
    } else if i < 0 || emit_at(cmds, i) {
        i
    } else {
        next_emit(cmds, i + 1)
    }
}

/// What the commands from the `i`-th on read back as, once written: each with its letter
/// and its numbers rounded to `p` places, a close-path that repeats the one before being
/// written once.
pub open spec fn reread_from(cmds: Seq<PCmd>, i: int, p: nat) -> Seq<PCmd>
    decreases cmds.len() - i,
{
    if i < 0 || i >= cmds.len() {
        seq![]
    } else if argc(cmds[i].letter) == 0 && !emit_at(cmds, i) {
        reread_from(cmds, i + 1, p)
    } else {
        seq![PCmd { letter: cmds[i].letter, args: round_all(cmds[i].args, p) }] + reread_from(
            cmds,
            i + 1,
            p,
        )
    }
}

/// A command that is written as text that reads back: a command letter with its count of
/// numbers, each of which `arg_ok`.
pub open spec fn cmd_writable(c: PCmd, p: nat) -> bool {
    &&& is_command(c.letter)
    &&& c.args.len() == argc(c.letter)
    &&& forall|j: int| 0 <= j < c.args.len() ==> arg_ok(c.letter, j, #[trigger] c.args[j], p)
}

pub open spec fn writable(cmds: Seq<PCmd>, p: nat) -> bool {
    forall|i: int| 0 <= i < cmds.len() ==> cmd_writable(#[trigger] cmds[i], p)
}

proof fn lemma_next_emit(cmds: Seq<PCmd>, i: int)
    requires
        0 <= i <= cmds.len(),
    ensures
        i <= next_emit(cmds, i) <= cmds.len(),
        next_emit(cmds, i) == cmds.len() || emit_at(cmds, next_emit(cmds, i)),
    decreases cmds.len() - i,
{
    if i < cmds.len() && !emit_at(cmds, i) {
        lemma_next_emit(cmds, i + 1);
    }
}

proof fn lemma_out_full(cmds: Seq<PCmd>, p: nat)
    ensures
        out_at(cmds, cmds.len() as int, p) == serialize_path(cmds, p),
        out_at(cmds, 0, p) == Seq::<char>::empty(),
{
    assert(cmds.take(cmds.len() as int) =~= cmds);
    assert(cmds.take(0) =~= Seq::<PCmd>::empty());
}

/// The text of the `k`-th command: its numbers written after `start_at`.
proof fn lemma_cmd_text(cmds: Seq<PCmd>, k: int, p: nat)
    requires
        0 <= k < cmds.len(),
    ensures
        out_at(cmds, k + 1, p) == write_args(
            start_at(cmds, k, p),
            emit_at(cmds, k),
            cmds[k].args,
            p,
        ),
        is_prefix(start_at(cmds, k, p), out_at(cmds, k + 1, p)),
        is_prefix(out_at(cmds, k + 1, p), serialize_path(cmds, p)),
        is_prefix(out_at(cmds, k, p), serialize_path(cmds, p)),
{
    lemma_out_step(cmds, k, p);
    lemma_write_args_prefix(start_at(cmds, k, p), emit_at(cmds, k), cmds[k].args, p);
    lemma_out_prefix(cmds, k + 1, cmds.len() as int, p);
    lemma_out_prefix(cmds, k, cmds.len() as int, p);
    lemma_out_full(cmds, p);
}

/// Numbers written after `o` end in a digit.
proof fn lemma_write_args_last(o: Seq<char>, al: bool, args: Seq<int>, p: nat)
    requires
        args.len() > 0,
    ensures
        write_args(o, al, args, p).len() > o.len(),
        is_digit(write_args(o, al, args, p).last()),
    decreases args.len(),
{
    let o2 = arg_step(o, al, args[0], p);
    lemma_write_args_step(o, al, args, p);
    let tok = round_and_format(args[0], p);
    lemma_token_shape(o, round_to(args[0], p));
    assert(o2.last() == tok.last());
    assert(o2.len() > o.len());
    if args.len() == 1 {
        assert(args.drop_first().len() == 0);
        assert(write_args(o2, false, args.drop_first(), p) == o2);
    } else {
        lemma_write_args_last(o2, false, args.drop_first(), p);
    }
}

/// A written command letter stands where its command's text starts.
proof fn lemma_letter_at(cmds: Seq<PCmd>, k: int, p: nat)
    requires
        0 <= k < cmds.len(),
        emit_at(cmds, k),
    ensures
        out_at(cmds, k, p).len() < serialize_path(cmds, p).len(),
        serialize_path(cmds, p)[out_at(cmds, k, p).len() as int] == cmds[k].letter,
{
    lemma_cmd_text(cmds, k, p);
    let t = serialize_path(cmds, p);
    lemma_prefix_trans(start_at(cmds, k, p), out_at(cmds, k + 1, p), t);
    lemma_prefix_index(start_at(cmds, k, p), t, out_at(cmds, k, p).len() as int);
}

/// After a command that takes numbers, the text written so far ends in a digit.
proof fn lemma_ends_digit(cmds: Seq<PCmd>, i: int, p: nat)
    requires
        0 < i <= cmds.len(),
        writable(cmds, p),
        argc(cmds[i - 1].letter) > 0,
    ensures
        out_at(cmds, i, p).len() > 0,
        is_digit(out_at(cmds, i, p).last()),
{
    assert(cmd_writable(cmds[i - 1], p));
    lemma_cmd_text(cmds, i - 1, p);
    lemma_write_args_last(start_at(cmds, i - 1, p), emit_at(cmds, i - 1), cmds[i - 1].args, p);
}

/// A command whose letter is not written takes as many numbers as the one before it, and
/// has its arcs in the same places.
proof fn lemma_unwritten_letter(cmds: Seq<PCmd>, i: int)
    requires
        0 <= i < cmds.len(),
        !emit_at(cmds, i),
    ensures
        i > 0,
        argc(cmds[i].letter) == argc(cmds[i - 1].letter),
        is_arc(cmds[i].letter) == is_arc(cmds[i - 1].letter),
        argc(cmds[i - 1].letter) == 0 ==> cmds[i].letter == cmds[i - 1].letter,
{
}

/// What follows a command that takes numbers ends its last number.
proof fn lemma_follower(cmds: Seq<PCmd>, i: int, p: nat)
    requires
        0 <= i < cmds.len(),
        writable(cmds, p),
        argc(cmds[i].letter) > 0,
    ensures
        ({
            let t = serialize_path(cmds, p);
            let e = out_at(cmds, i + 1, p).len() as int;
            e == t.len() || ends_number(t[e], has_prior_dot(out_at(cmds, i + 1, p)))
        }),
{
    let t = serialize_path(cmds, p);
    let o = out_at(cmds, i + 1, p);
    lemma_out_full(cmds, p);
    if i + 1 < cmds.len() {
        let i1 = i + 1;
        if emit_at(cmds, i1) {
            lemma_letter_at(cmds, i1, p);
            assert(cmd_writable(cmds[i1], p));
        } else {
            lemma_unwritten_letter(cmds, i1);
            lemma_ends_digit(cmds, i1, p);
            assert(cmd_writable(cmds[i1], p));
            let args = cmds[i1].args;
            lemma_cmd_text(cmds, i1, p);
            assert(start_at(cmds, i1, p) == o);
            lemma_write_args_step(o, false, args, p);
            let v2 = args[0];
            let tok2 = round_and_format(v2, p);
            let o3 = arg_step(o, false, v2, p);
            lemma_write_args_prefix(o3, false, args.drop_first(), p);
            lemma_prefix_trans(o3, out_at(cmds, i1 + 1, p), t);
            lemma_token_shape(o, round_to(v2, p));
            lemma_prefix_index(o3, t, o.len() as int);
            if needs_sep(o, tok2) {
                assert(o3[o.len() as int] == ' ');
            } else {
                assert(o3 == o + tok2);
                assert(o3[o.len() as int] == tok2[0]);
                if is_digit(tok2[0]) {
                    assert(needs_sep(o, tok2));
                }
            }
        }
    }
}

/// One command's numbers, as written, read back as one group for the current command
/// `cc` (which takes as many numbers, with arc flags in the same places).
proof fn lemma_group(cmds: Seq<PCmd>, i: int, cc: char, p: nat)
    requires
        0 <= i < cmds.len(),
        writable(cmds, p),
        argc(cmds[i].letter) > 0,
        argc(cc) == argc(cmds[i].letter),
        is_arc(cc) == is_arc(cmds[i].letter),
    ensures
        ({
            let t = serialize_path(cmds, p);
            let q = skip_sep(t, start_at(cmds, i, p).len() as int);
            &&& q < t.len()
            &&& !is_sep(t[q])
            &&& !is_command(t[q])
            &&& skip_sep(t, q) == q
            &&& pp_args(t, q, cc, 0, argc(cc) as int) matches ArgsScan::Done(a, e) && e
                == out_at(cmds, i + 1, p).len() && a == round_all(cmds[i].args, p)
        }),
{
    let t = serialize_path(cmds, p);
    let st = start_at(cmds, i, p);
    let al = emit_at(cmds, i);
    let c = cmds[i];
    let args = c.args;
    let n = argc(cc) as int;
    assert(cmd_writable(c, p));
    lemma_cmd_text(cmds, i, p);
    let w = out_at(cmds, i + 1, p);
    if !al {
        lemma_unwritten_letter(cmds, i);
        lemma_ends_digit(cmds, i, p);
    }
    assert forall|j: int| 0 <= j < args.len() implies arg_ok(cc, 0 + j, #[trigger] args[j], p) by {
        assert(arg_ok(c.letter, j, args[j], p));
    }
    lemma_follower(cmds, i, p);
    lemma_write_args_last(st, al, args, p);
    lemma_args_read(t, st, al, args, cc, 0, n, p);
    lemma_write_args_step(st, al, args, p);
    let o2 = arg_step(st, al, args[0], p);
    lemma_write_args_prefix(o2, false, args.drop_first(), p);
    lemma_prefix_trans(o2, w, t);
    lemma_skip_to_token(t, st, al, args[0], p);
    let tok = round_and_format(args[0], p);
    lemma_token_shape(st, round_to(args[0], p));
    let q = o2.len() - tok.len();
    assert(t[q + 0] == tok[0]);
    lemma_not_sep_start(t, q);
    assert(pp_args(t, q, cc, 0, n) == pp_args(t, st.len() as int, cc, 0, n));
}

/// The groups of numbers of the commands from the `i`-th up to the next written letter
/// read back, for a current command like the one before the `i`-th.
proof fn lemma_run_groups(cmds: Seq<PCmd>, i: int, cc: char, p: nat)
    requires
        0 < i <= cmds.len(),
        writable(cmds, p),
        argc(cmds[i - 1].letter) > 0,
        argc(cc) == argc(cmds[i - 1].letter),
        is_arc(cc) == is_arc(cmds[i - 1].letter),
        cc == implicit_next(cmds[i - 1].letter),
    ensures
        pp_groups(serialize_path(cmds, p), out_at(cmds, i, p).len() as int, cc) matches GroupsScan::Done(
            cs,
            e,
            _,
        ) && e == out_at(cmds, next_emit(cmds, i), p).len() && reread_from(cmds, i, p) == cs
            + reread_from(cmds, next_emit(cmds, i), p),
    decreases cmds.len() - i,
{
    let t = serialize_path(cmds, p);
    let x = out_at(cmds, i, p).len() as int;
    lemma_out_full(cmds, p);
    lemma_out_prefix(cmds, i, cmds.len() as int, p);
    if i == cmds.len() {
        assert(skip_sep(t, x) == x);
        assert(reread_from(cmds, i, p) =~= Seq::<PCmd>::empty() + reread_from(cmds, i, p));
    } else if emit_at(cmds, i) {
        lemma_letter_at(cmds, i, p);
        assert(cmd_writable(cmds[i], p));
        lemma_not_sep_start(t, x);
        assert(reread_from(cmds, i, p) =~= Seq::<PCmd>::empty() + reread_from(cmds, i, p));
    } else {
        lemma_unwritten_letter(cmds, i);
        lemma_group(cmds, i, cc, p);
        assert(start_at(cmds, i, p) == out_at(cmds, i, p));
        assert(cmds[i].letter == cc);
        lemma_run_groups(cmds, i + 1, implicit_next(cc), p);
        let q = skip_sep(t, x);
        lemma_skip_ge(t, x);
        let ne = next_emit(cmds, i);
        if let ArgsScan::Done(a, e1) = pp_args(t, q, cc, 0, argc(cc) as int) {
            let y = out_at(cmds, i + 1, p).len() as int;
            assert(pp_groups(t, x, cc) == cons_cmd(
                PCmd { letter: cc, args: a },
                pp_groups(t, y, implicit_next(cc)),
            ));
            if let GroupsScan::Done(cs, e, cl) = pp_groups(t, y, implicit_next(cc)) {
                let hd = PCmd { letter: cc, args: a };
                assert(reread_from(cmds, i, p) == seq![hd] + reread_from(cmds, i + 1, p));
                assert(seq![hd] + (cs + reread_from(cmds, ne, p)) =~= (seq![hd] + cs)
                    + reread_from(cmds, ne, p));
            }
        }
    }
}

/// The commands from the `i`-th up to the next written letter, after one that takes no
/// numbers, add no text.
proof fn lemma_run_empty(cmds: Seq<PCmd>, i: int, p: nat)
    requires
        0 < i <= cmds.len(),
        writable(cmds, p),
        argc(cmds[i - 1].letter) == 0,
    ensures
        out_at(cmds, next_emit(cmds, i), p) == out_at(cmds, i, p),
        reread_from(cmds, next_emit(cmds, i), p) == reread_from(cmds, i, p),
    decreases cmds.len() - i,
{
    if i < cmds.len() && !emit_at(cmds, i) {
        lemma_unwritten_letter(cmds, i);
        assert(cmd_writable(cmds[i], p));
        lemma_cmd_text(cmds, i, p);
        assert(cmds[i].args.len() == 0);
        assert(out_at(cmds, i + 1, p) == out_at(cmds, i, p));
        lemma_run_empty(cmds, i + 1, p);
    }
}

/// Reading from where a written letter stands, or from the end, succeeds whatever the
/// current command.
proof fn lemma_reads_from(cmds: Seq<PCmd>, k: int, cur: Option<char>, p: nat)
    requires
        0 <= k <= cmds.len(),
        k == cmds.len() || emit_at(cmds, k),
        writable(cmds, p),
    ensures
        pp_outer(serialize_path(cmds, p), out_at(cmds, k, p).len() as int, cur) == Some(
            reread_from(cmds, k, p),
        ),
    decreases cmds.len() - k,
{
    let t = serialize_path(cmds, p);
    let x = out_at(cmds, k, p).len() as int;
    lemma_out_full(cmds, p);
    if k == cmds.len() {
        assert(skip_sep(t, x) == x);
    } else {
        let c = cmds[k].letter;
        assert(cmd_writable(cmds[k], p));
        lemma_letter_at(cmds, k, p);
        lemma_not_sep_start(t, x);
        lemma_cmd_text(cmds, k, p);
        lemma_next_emit(cmds, k + 1);
        let j = next_emit(cmds, k + 1);
        lemma_out_prefix(cmds, k + 1, j, p);
        if argc(c) == 0 {
            lemma_run_empty(cmds, k + 1, p);
            assert(out_at(cmds, k + 1, p) == out_at(cmds, k, p).push(c));
            if j < cmds.len() {
                lemma_letter_at(cmds, j, p);
                assert(cmd_writable(cmds[j], p));
                lemma_not_sep_start(t, x + 1);
            } else {
                assert(skip_sep(t, x + 1) == x + 1);
            }
            lemma_reads_from(cmds, j, None, p);
            assert(skip_sep(t, x + 1) == out_at(cmds, j, p).len());
            assert(pp_outer(t, x, cur) == cons_opt(
                seq![PCmd { letter: c, args: seq![] }],
                pp_outer(t, x + 1, None),
            ));
            assert(round_all(cmds[k].args, p) =~= Seq::<int>::empty());
        } else {
            lemma_group(cmds, k, c, p);
            let q2 = skip_sep(t, x + 1);
            lemma_run_groups(cmds, k + 1, implicit_next(c), p);
            lemma_write_args_last(start_at(cmds, k, p), true, cmds[k].args, p);
            assert(start_at(cmds, k, p) == out_at(cmds, k, p).push(c));
            assert(q2 == skip_sep(t, start_at(cmds, k, p).len() as int));
            let y = out_at(cmds, k + 1, p).len() as int;
            lemma_skip_ge(t, x + 1);
            if let ArgsScan::Done(a, e1) = pp_args(t, q2, c, 0, argc(c) as int) {
                assert(e1 == y);
                assert(pp_groups(t, q2, c) == cons_cmd(
                    PCmd { letter: c, args: a },
                    pp_groups(t, y, implicit_next(c)),
                ));
            }
            match pp_groups(t, q2, c) {
                GroupsScan::Done(cs, e, cl) => {
                    assert(e == out_at(cmds, j, p).len());
                    assert(e > x);
                    lemma_reads_from(cmds, j, Some(cl), p);
                    assert(pp_outer(t, x, cur) == cons_opt(cs, pp_outer(t, e, Some(cl))));
                    if let ArgsScan::Done(a, e1) = pp_args(t, q2, c, 0, argc(c) as int) {
                        if let GroupsScan::Done(cs2, e2, cl2) = pp_groups(t, y, implicit_next(c)) {
                            let hd = PCmd { letter: c, args: a };
                            assert(cs == seq![hd] + cs2);
                            assert(reread_from(cmds, k, p) == seq![hd] + reread_from(cmds, k + 1, p));
                            assert(seq![hd] + (cs2 + reread_from(cmds, j, p)) =~= (seq![hd] + cs2)
                                + reread_from(cmds, j, p));
                        }
                    }
                },
                GroupsScan::Fail => {},
            }
        }
    }
}

/// Path data as written reads back: the text of commands whose numbers stay within range
/// once rounded (arc flags being 0 or 1) parses as the same commands, letter for letter,
/// with their numbers rounded, a repeated close-path read once.
pub proof fn lemma_written_reads_back(cmds: Seq<PCmd>, p: nat)
    requires
        writable(cmds, p),
    ensures
        sp_parse_path(serialize_path(cmds, p)) == Some(reread_from(cmds, 0, p)),
{
    lemma_out_full(cmds, p);
    lemma_reads_from(cmds, 0, None, p);
}

} // verus!

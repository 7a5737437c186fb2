//! Reading path data: numbers and commands.
use vstd::prelude::*;

use super::number::{
    BOUND, SCALE, div_round, div_round_exec, in_bound, is_digit, lemma_pow10_mono,
    lemma_pow10_pos, lemma_pow10_values, pow10, pow10_exec,
};
use crate::text::{is_ascii_ws, is_ascii_ws_exec};

verus! {

broadcast use vstd::std_specs::vec::group_vec_axioms;

/// Largest mantissa (the value of all digits of a number, point ignored) that is read.
pub const MANT_CAP: i128 = 1_000_000_000_000_000_000_000_000_000_000_000_000;

/// Exponents are read up to this magnitude; any larger one acts as this one.
pub const EXP_CAP: i128 = 100_000;

/// One path command: its letter and its numbers (coordinates in units of 10^-10; the
/// two arc flags as 0 or `SCALE`).
pub struct PathCmd {
    pub cmd: char,
    pub args: Vec<i128>,
}

pub struct PCmd {
    pub letter: char,
    pub args: Seq<int>,
}

pub open spec fn args_view(v: Seq<i128>) -> Seq<int> {
    v.map_values(|x: i128| x as int)
}

impl View for PathCmd {
    type V = PCmd;

    open spec fn view(&self) -> PCmd {
        PCmd { letter: self.cmd, args: args_view(self.args@) }
    }
}

pub open spec fn cmds_view(v: Seq<PathCmd>) -> Seq<PCmd> {
    v.map_values(|c: PathCmd| c@)
}

pub open spec fn is_sep(c: char) -> bool {
    is_ascii_ws(c) || c == ','
}

pub open spec fn is_command(c: char) -> bool {
    c == 'M' || c == 'm' || c == 'L' || c == 'l' || c == 'H' || c == 'h' || c == 'V' || c == 'v'
        || c == 'C' || c == 'c' || c == 'S' || c == 's' || c == 'Q' || c == 'q' || c == 'T'
        || c == 't' || c == 'A' || c == 'a' || c == 'Z' || c == 'z'
}

/// How many numbers a command takes.
pub open spec fn argc(c: char) -> nat {
    if c == 'M' || c == 'm' || c == 'L' || c == 'l' || c == 'T' || c == 't' {
        2
    } else if c == 'H' || c == 'h' || c == 'V' || c == 'v' {
        1
    } else if c == 'C' || c == 'c' {
        6
    } else if c == 'S' || c == 's' || c == 'Q' || c == 'q' {
        4
    } else if c == 'A' || c == 'a' {
        7
    } else {
        0
    }
}

pub open spec fn is_arc(c: char) -> bool {
    c == 'A' || c == 'a'
}

/// The command that a repeated group of numbers stands for after `c`.
pub open spec fn implicit_next(c: char) -> char {
    if c == 'M' {
        'L'
    } else if c == 'm' {
        'l'
    } else {
        c
    }
}

/// A command that holds the right count of numbers, each within bounds.
pub open spec fn wf_cmd(c: PCmd) -> bool {
    &&& is_command(c.letter)
    &&& c.args.len() == argc(c.letter)
    &&& forall|j: int| 0 <= j < c.args.len() ==> in_bound(#[trigger] c.args[j])
}

pub open spec fn wf_cmds(s: Seq<PCmd>) -> bool {
    forall|i: int| 0 <= i < s.len() ==> wf_cmd(#[trigger] s[i])
}

/// The position after the white space and commas that start at `p`.
pub open spec fn skip_sep(s: Seq<char>, p: int) -> int
    decreases s.len() - p,
{
    if 0 <= p < s.len() && is_sep(s[p]) {
        skip_sep(s, p + 1)
    } else {
        p
    }
}

/// The position after the decimal digits that start at `p`.
pub open spec fn digits_end(s: Seq<char>, p: int) -> int
    decreases s.len() - p,
{
    if 0 <= p < s.len() && is_digit(s[p]) {
        digits_end(s, p + 1)
    } else {
        p
    }
}

pub open spec fn digit_val(c: char) -> int {
    c as int - '0' as int
}

/// The value of a string of decimal digits.
pub open spec fn dval(s: Seq<char>) -> int
    decreases s.len(),
{
    if s.len() == 0 {
        0
    } else {
        dval(s.drop_last()) * 10 + digit_val(s.last())
    }
}

pub open spec fn min(a: int, b: int) -> int {
    if a <= b {
        a
    } else {
        b
    }
}

/// What reading a number yields: its value and where it ends; no number, with where the
/// characters that were taken end; or a number out of the range that is held.
pub enum NumScan {
    Num(int, int),
    NoNum(int),
    TooBig,
}

/// A number with mantissa `mant`, `f` digits after the point and exponent `e`.
pub open spec fn number_value(neg: bool, mant: int, f: int, e: int, end: int) -> NumScan {
    let k = e - f + 10;
    let m = if k >= 0 {
        mant * pow10(k as nat)
    } else {
        div_round(mant, pow10((-k) as nat) as int)
    };
    if mant > MANT_CAP || m > BOUND {
        NumScan::TooBig
    } else {
        NumScan::Num(
            if neg {
                -m
            } else {
                m
            },
            end,
        )
    }
}

/// Reads a number after the separators at `p`: optional sign, digits, optional point and
/// digits (at least one digit in all), optional exponent. An exponent marker with no digit
/// after it makes the whole read fail.
pub open spec fn scan_number(s: Seq<char>, p: int) -> NumScan {
    let q0 = skip_sep(s, p);
    let signed = q0 < s.len() && (s[q0] == '-' || s[q0] == '+');
    let neg = q0 < s.len() && s[q0] == '-';
    let q1 = if signed {
        q0 + 1
    } else {
        q0
    };
    let q2 = digits_end(s, q1);
    let dot = q2 < s.len() && s[q2] == '.';
    let q3 = if dot {
        q2 + 1
    } else {
        q2
    };
    let q4 = digits_end(s, q3);
    if q2 == q1 && q4 == q3 {
        NumScan::NoNum(q4)
    } else {
        scan_exponent(s, neg, dval(s.subrange(q1, q2) + s.subrange(q3, q4)), q4 - q3, q4)
    }
}

/// The rest of a number whose digits end at `q4`: an optional exponent.
pub open spec fn scan_exponent(s: Seq<char>, neg: bool, mant: int, f: int, q4: int) -> NumScan {
    if 0 <= q4 < s.len() && (s[q4] == 'e' || s[q4] == 'E') {
        let q5 = q4 + 1;
        let esigned = q5 < s.len() && (s[q5] == '+' || s[q5] == '-');
        let eneg = q5 < s.len() && s[q5] == '-';
        let q6 = if esigned {
            q5 + 1
        } else {
            q5
        };
        let q7 = digits_end(s, q6);
        if q7 == q6 {
            NumScan::NoNum(q7)
        } else {
            let e = min(dval(s.subrange(q6, q7)), EXP_CAP as int);
            number_value(
                neg,
                mant,
                f,
                if eneg {
                    -e
                } else {
                    e
                },
                q7,
            )
        }
    } else {
        number_value(neg, mant, f, 0, q4)
    }
}

pub proof fn lemma_skip_ge(s: Seq<char>, p: int)
    requires
        0 <= p,
    ensures
        p <= skip_sep(s, p),
        skip_sep(s, p) <= s.len() || skip_sep(s, p) == p,
        skip_sep(s, skip_sep(s, p)) == skip_sep(s, p),
    decreases s.len() - p,
{
    if 0 <= p < s.len() && is_sep(s[p]) {
        lemma_skip_ge(s, p + 1);
    }
}

pub proof fn lemma_digits_end_ge(s: Seq<char>, p: int)
    requires
        0 <= p,
    ensures
        p <= digits_end(s, p),
        digits_end(s, p) <= s.len() || digits_end(s, p) == p,
        forall|j: int| p <= j < digits_end(s, p) ==> is_digit(#[trigger] s[j]),
    decreases s.len() - p,
{
    if 0 <= p < s.len() && is_digit(s[p]) {
        lemma_digits_end_ge(s, p + 1);
    }
}

pub proof fn lemma_dval_nonneg(s: Seq<char>)
    requires
        forall|j: int| 0 <= j < s.len() ==> is_digit(#[trigger] s[j]),
    ensures
        dval(s) >= 0,
    decreases s.len(),
{
    if s.len() > 0 {
        lemma_dval_nonneg(s.drop_last());
    }
}

pub proof fn lemma_scan_progress(s: Seq<char>, p: int)
    requires
        0 <= p <= s.len(),
    ensures
        scan_number(s, p) matches NumScan::Num(v, e) ==> skip_sep(s, p) < e <= s.len() && in_bound(
            v,
        ),
        scan_number(s, p) matches NumScan::NoNum(e) ==> p <= e <= s.len(),
{
    let q0 = skip_sep(s, p);
    lemma_skip_ge(s, p);
    let signed = q0 < s.len() && (s[q0] == '-' || s[q0] == '+');
    let q1 = if signed {
        q0 + 1
    } else {
        q0
    };
    lemma_digits_end_ge(s, q1);
    let q2 = digits_end(s, q1);
    let dot = q2 < s.len() && s[q2] == '.';
    let q3 = if dot {
        q2 + 1
    } else {
        q2
    };
    lemma_digits_end_ge(s, q3);
    let q4 = digits_end(s, q3);
    let ds = s.subrange(q1, q2) + s.subrange(q3, q4);
    assert forall|j: int| 0 <= j < ds.len() implies is_digit(#[trigger] ds[j]) by {
        if j < q2 - q1 {
            assert(ds[j] == s[q1 + j]);
        } else {
            assert(ds[j] == s[q3 + j - (q2 - q1)]);
        }
    }
    lemma_dval_nonneg(ds);
    let mant = dval(ds);
    if q4 < s.len() && (s[q4] == 'e' || s[q4] == 'E') {
        let q5 = q4 + 1;
        let esigned = q5 < s.len() && (s[q5] == '+' || s[q5] == '-');
        let q6 = if esigned {
            q5 + 1
        } else {
            q5
        };
        lemma_digits_end_ge(s, q6);
        let q7 = digits_end(s, q6);
        let es = s.subrange(q6, q7);
        let eneg = q5 < s.len() && s[q5] == '-';
        let e = min(dval(es), EXP_CAP as int);
        lemma_number_value_bound(
            neg_of(s, q0),
            mant,
            q4 - q3,
            if eneg {
                -e
            } else {
                e
            },
            q7,
        );
    } else {
        lemma_number_value_bound(neg_of(s, q0), mant, q4 - q3, 0, q4);
    }
}

pub open spec fn neg_of(s: Seq<char>, q0: int) -> bool {
    q0 < s.len() && s[q0] == '-'
}

proof fn lemma_number_value_bound(neg: bool, mant: int, f: int, e: int, end: int)
    requires
        mant >= 0,
    ensures
        number_value(neg, mant, f, e, end) matches NumScan::Num(v, e2) ==> in_bound(v) && e2 == end,
{
    let k = e - f + 10;
    if k >= 0 {
        lemma_pow10_pos(k as nat);
        let pk = pow10(k as nat) as int;
        assert(mant * pk >= 0) by (nonlinear_arith)
            requires
                mant >= 0,
                pk >= 1,
        ;
    } else {
        lemma_pow10_pos((-k) as nat);
        let pk = pow10((-k) as nat) as int;
        assert((2 * mant + pk) / (2 * pk) >= 0) by (nonlinear_arith)
            requires
                mant >= 0,
                pk >= 1,
        ;
    }
}

pub fn is_sep_exec(c: char) -> (r: bool)
    ensures
        r == is_sep(c),
{
    is_ascii_ws_exec(c) || c == ','
}

pub fn is_command_exec(c: char) -> (r: bool)
    ensures
        r == is_command(c),
{
    c == 'M' || c == 'm' || c == 'L' || c == 'l' || c == 'H' || c == 'h' || c == 'V' || c == 'v'
        || c == 'C' || c == 'c' || c == 'S' || c == 's' || c == 'Q' || c == 'q' || c == 'T'
        || c == 't' || c == 'A' || c == 'a' || c == 'Z' || c == 'z'
}

pub fn argc_exec(c: char) -> (r: usize)
    ensures
        r == argc(c),
{
    if c == 'M' || c == 'm' || c == 'L' || c == 'l' || c == 'T' || c == 't' {
        2
    } else if c == 'H' || c == 'h' || c == 'V' || c == 'v' {
        1
    } else if c == 'C' || c == 'c' {
        6
    } else if c == 'S' || c == 's' || c == 'Q' || c == 'q' {
        4
    } else if c == 'A' || c == 'a' {
        7
    } else {
        0
    }
}

pub fn skip_sep_exec(s: &Vec<char>, p: usize) -> (r: usize)
    requires
        p <= s@.len(),
    ensures
        r == skip_sep(s@, p as int),
        p <= r <= s@.len(),
{
    let mut i = p;
    while i < s.len() && is_sep_exec(s[i])
        invariant
            p <= i <= s@.len(),
            skip_sep(s@, i as int) == skip_sep(s@, p as int),
        decreases s@.len() - i,
    {
        i = i + 1;
    }
    i
}

fn digits_end_exec(s: &Vec<char>, p: usize) -> (r: usize)
    requires
        p <= s@.len(),
    ensures
        r == digits_end(s@, p as int),
        p <= r <= s@.len(),
{
    let mut i = p;
    while i < s.len() && ('0' <= s[i] && s[i] <= '9')
        invariant
            p <= i <= s@.len(),
            digits_end(s@, i as int) == digits_end(s@, p as int),
        decreases s@.len() - i,
    {
        i = i + 1;
    }
    i
}

fn digit_val_exec(c: char) -> (r: i128)
    requires
        is_digit(c),
    ensures
        r == digit_val(c),
        0 <= r <= 9,
{
    let u = c as u32;
    (u - 48) as i128
}

/// Accumulates the digits `s[a..b]` onto a mantissa; `big` once it exceeds `MANT_CAP`.
fn accumulate(s: &Vec<char>, a: usize, b: usize, mant: i128, big: bool, Ghost(pre): Ghost<
    Seq<char>,
>) -> (r: (i128, bool))
    requires
        a <= b <= s@.len(),
        forall|j: int| a <= j < b ==> is_digit(#[trigger] s@[j]),
        forall|j: int| 0 <= j < pre.len() ==> is_digit(#[trigger] pre[j]),
        !big ==> mant == dval(pre) && 0 <= mant <= MANT_CAP,
        big ==> dval(pre) > MANT_CAP,
    ensures
        !r.1 ==> r.0 == dval(pre + s@.subrange(a as int, b as int)) && 0 <= r.0 <= MANT_CAP,
        r.1 ==> dval(pre + s@.subrange(a as int, b as int)) > MANT_CAP,
{
    let mut m = mant;
    let mut bg = big;
    let mut i = a;
    proof {
        assert(pre + s@.subrange(a as int, a as int) =~= pre);
    }
    while i < b
        invariant
            a <= i <= b <= s@.len(),
            forall|j: int| a <= j < b ==> is_digit(#[trigger] s@[j]),
            forall|j: int| 0 <= j < pre.len() ==> is_digit(#[trigger] pre[j]),
            !bg ==> m == dval(pre + s@.subrange(a as int, i as int)) && 0 <= m <= MANT_CAP,
            bg ==> dval(pre + s@.subrange(a as int, i as int)) > MANT_CAP,
        decreases b - i,
    {
        let ghost old_seq = pre + s@.subrange(a as int, i as int);
        let ghost new_seq = pre + s@.subrange(a as int, i + 1);
        assert(new_seq.drop_last() =~= old_seq);
        assert(new_seq.last() == s@[i as int]);
        let d = digit_val_exec(s[i]);
        if !bg {
            let nm = m * 10 + d;
            if nm > MANT_CAP {
                bg = true;
            } else {
                m = nm;
            }
        } else {
            proof {
                assert forall|j: int| 0 <= j < old_seq.len() implies is_digit(#[trigger] old_seq[j]) by {
                    if j < pre.len() {
                    } else {
                        assert(old_seq[j] == s@[a + j - pre.len()]);
                    }
                }
                lemma_dval_nonneg(old_seq);
            }
        }
        i = i + 1;
    }
    (m, bg)
}

/// Exponent digits `s[a..b]`, their value capped at `EXP_CAP`.
fn exponent_value(s: &Vec<char>, a: usize, b: usize) -> (r: i128)
    requires
        a <= b <= s@.len(),
        forall|j: int| a <= j < b ==> is_digit(#[trigger] s@[j]),
    ensures
        r == min(dval(s@.subrange(a as int, b as int)), EXP_CAP as int),
        0 <= r <= EXP_CAP,
{
    let mut e: i128 = 0;
    let mut i = a;
    proof {
        assert(s@.subrange(a as int, a as int) =~= Seq::<char>::empty());
    }
    while i < b
        invariant
            a <= i <= b <= s@.len(),
            forall|j: int| a <= j < b ==> is_digit(#[trigger] s@[j]),
            e == min(dval(s@.subrange(a as int, i as int)), EXP_CAP as int),
            0 <= e <= EXP_CAP,
        decreases b - i,
    {
        let ghost old_seq = s@.subrange(a as int, i as int);
        let ghost new_seq = s@.subrange(a as int, i + 1);
        assert(new_seq.drop_last() =~= old_seq);
        proof {
            lemma_dval_nonneg(old_seq);
        }
        let d = digit_val_exec(s[i]);
        let t = e * 10 + d;
        e = if t > EXP_CAP {
            EXP_CAP
        } else {
            t
        };
        i = i + 1;
    }
    e
}

/// The exec form of `NumScan`.
pub enum NumRead {
    Num(i128, usize),
    NoNum(usize),
    TooBig,
}

pub open spec fn num_read_view(r: NumRead) -> NumScan {
    match r {
        NumRead::Num(v, e) => NumScan::Num(v as int, e as int),
        NumRead::NoNum(e) => NumScan::NoNum(e as int),
        NumRead::TooBig => NumScan::TooBig,
    }
}

proof fn lemma_shift_bound(mant: int, pk: int)
    requires
        pk >= 1,
        mant >= 0,
    ensures
        (mant > (BOUND as int) / pk) == (mant * pk > BOUND),
{
    let q = (BOUND as int) / pk;
    assert(q * pk <= BOUND && BOUND < (q + 1) * pk) by (nonlinear_arith)
        requires
            q == (BOUND as int) / pk,
            pk >= 1,
    ;
    if mant > q {
        assert(mant * pk >= (q + 1) * pk) by (nonlinear_arith)
            requires
                mant >= q + 1,
                pk >= 1,
        ;
    } else {
        assert(mant * pk <= q * pk) by (nonlinear_arith)
            requires
                mant <= q,
                pk >= 1,
        ;
    }
}

/// The value of a number from its parts; the exec form of `number_value`.
fn number_value_exec(
    neg: bool,
    mant: i128,
    big: bool,
    f: usize,
    e: i128,
    end: usize,
    Ghost(gm): Ghost<int>,
) -> (r: NumRead)
    requires
        -EXP_CAP <= e <= EXP_CAP,
        !big ==> 0 <= mant <= MANT_CAP && gm == mant,
        big ==> gm > MANT_CAP,
    ensures
        num_read_view(r) == number_value(neg, gm, f as int, e as int, end as int),
{
    if big {
        return NumRead::TooBig;
    }
    let k: i128 = e - (f as i128) + 10;
    proof {
        lemma_pow10_values();
    }
    if k >= 0 {
        if mant == 0 {
            assert(0 * pow10(k as nat) == 0);
            return NumRead::Num(0, end);
        }
        if k > 18 {
            proof {
                lemma_pow10_mono(19, k as nat);
                let pk = pow10(k as nat) as int;
                assert(mant * pk >= pk) by (nonlinear_arith)
                    requires
                        mant >= 1,
                        pk >= 1,
                ;
            }
            return NumRead::TooBig;
        }
        let pk = pow10_exec(k as u32);
        proof {
            lemma_pow10_pos(k as nat);
            lemma_pow10_mono(k as nat, 18);
            lemma_shift_bound(mant as int, pk as int);
        }
        if mant > BOUND / pk {
            return NumRead::TooBig;
        }
        let m = mant * pk;
        if neg {
            NumRead::Num(-m, end)
        } else {
            NumRead::Num(m, end)
        }
    } else {
        let mk = -k;
        if mk > 37 {
            proof {
                lemma_pow10_mono(38, mk as nat);
                let big_m = pow10(mk as nat) as int;
                assert((2 * mant + big_m) / (2 * big_m) == 0) by (nonlinear_arith)
                    requires
                        0 <= mant <= 1_000_000_000_000_000_000_000_000_000_000_000_000,
                        big_m >= 100_000_000_000_000_000_000_000_000_000_000_000_000,
                ;
            }
            return NumRead::Num(0, end);
        }
        let pk = pow10_exec(mk as u32);
        proof {
            lemma_pow10_pos(mk as nat);
            lemma_pow10_mono(mk as nat, 37);
        }
        let m = div_round_exec(mant, pk);
        if m > BOUND {
            return NumRead::TooBig;
        }
        if neg {
            NumRead::Num(-m, end)
        } else {
            NumRead::Num(m, end)
        }
    }
}

/// Reads a number after the separators at `p`.
pub fn scan_number_exec(s: &Vec<char>, p: usize) -> (r: NumRead)
    requires
        p <= s@.len(),
    ensures
        num_read_view(r) == scan_number(s@, p as int),
{
    let q0 = skip_sep_exec(s, p);
    let signed = q0 < s.len() && (s[q0] == '-' || s[q0] == '+');
    let neg = q0 < s.len() && s[q0] == '-';
    let q1 = if signed {
        q0 + 1
    } else {
        q0
    };
    let q2 = digits_end_exec(s, q1);
    let dot = q2 < s.len() && s[q2] == '.';
    let q3 = if dot {
        q2 + 1
    } else {
        q2
    };
    let q4 = digits_end_exec(s, q3);
    if q2 == q1 && q4 == q3 {
        return NumRead::NoNum(q4);
    }
    proof {
        lemma_digits_end_ge(s@, q1 as int);
        lemma_digits_end_ge(s@, q3 as int);
        assert(Seq::<char>::empty() + s@.subrange(q1 as int, q2 as int) =~= s@.subrange(
            q1 as int,
            q2 as int,
        ));
        assert forall|j: int| 0 <= j < s@.subrange(q1 as int, q2 as int).len() implies is_digit(
            #[trigger] s@.subrange(q1 as int, q2 as int)[j],
        ) by {
            assert(s@.subrange(q1 as int, q2 as int)[j] == s@[q1 + j]);
        }
    }
    let (m1, b1) = accumulate(s, q1, q2, 0, false, Ghost(Seq::<char>::empty()));
    let (mant, big) = accumulate(s, q3, q4, m1, b1, Ghost(s@.subrange(q1 as int, q2 as int)));
    let ghost gm = dval(s@.subrange(q1 as int, q2 as int) + s@.subrange(q3 as int, q4 as int));
    scan_exponent_exec(s, neg, mant, big, q4 - q3, q4, Ghost(gm))
}

fn scan_exponent_exec(
    s: &Vec<char>,
    neg: bool,
    mant: i128,
    big: bool,
    f: usize,
    q4: usize,
    Ghost(gm): Ghost<int>,
) -> (r: NumRead)
    requires
        q4 <= s@.len(),
        !big ==> 0 <= mant <= MANT_CAP && gm == mant,
        big ==> gm > MANT_CAP,
    ensures
        num_read_view(r) == scan_exponent(s@, neg, gm, f as int, q4 as int),
{
    if q4 < s.len() && (s[q4] == 'e' || s[q4] == 'E') {
        let q5 = q4 + 1;
        let esigned = q5 < s.len() && (s[q5] == '+' || s[q5] == '-');
        let eneg = q5 < s.len() && s[q5] == '-';
        let q6 = if esigned {
            q5 + 1
        } else {
            q5
        };
        let q7 = digits_end_exec(s, q6);
        if q7 == q6 {
            return NumRead::NoNum(q7);
        }
        proof {
            lemma_digits_end_ge(s@, q6 as int);
        }
        let e = exponent_value(s, q6, q7);
        number_value_exec(
            neg,
            mant,
            big,
            f,
            if eneg {
                -e
            } else {
                e
            },
            q7,
            Ghost(gm),
        )
    } else {
        number_value_exec(neg, mant, big, f, 0, q4, Ghost(gm))
    }
}

} // verus!

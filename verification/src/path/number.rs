//! Fixed-point coordinates: rounding, comparison and decimal formatting.
use vstd::prelude::*;

verus! {

/// Units in one coordinate unit: a coordinate `v` stands for `v / 10^10`.
pub const SCALE: i128 = 10_000_000_000;

/// Largest magnitude of a coordinate that a path may hold, in units (10^8 in coordinate terms).
pub const BOUND: i128 = 1_000_000_000_000_000_000;

pub open spec fn pow10(n: nat) -> nat
    decreases n,
{
    if n == 0 {
        1
    } else {
        10 * pow10((n - 1) as nat)
    }
}

pub open spec fn abs(v: int) -> int {
    if v < 0 {
        -v
    } else {
        v
    }
}

pub open spec fn in_bound(v: int) -> bool {
    -BOUND <= v <= BOUND
}

/// `a / m` rounded to the nearest integer, halves away from zero (for `m > 0`).
pub open spec fn div_round(a: int, m: int) -> int {
    if a >= 0 {
        (2 * a + m) / (2 * m)
    } else {
        -((2 * (-a) + m) / (2 * m))
    }
}

/// Whether two coordinates agree once rounded to `p` decimal places.
pub open spec fn approx_eq(a: int, b: int, p: nat) -> bool {
    if p >= 10 {
        a == b
    } else {
        div_round(a, pow10((10 - p) as nat) as int) == div_round(b, pow10((10 - p) as nat) as int)
    }
}

/// A coordinate rounded to `p` decimal places.
pub open spec fn round_to(a: int, p: nat) -> int {
    if p >= 10 {
        a
    } else {
        div_round(a, pow10((10 - p) as nat) as int) * pow10((10 - p) as nat)
    }
}

/// Whether `(px, py)` lies on the line through `(x0, y0)` and `(x1, y1)`: the cross
/// product of the two offsets is below half a unit of the `p`-th decimal place.
pub open spec fn collinear(x0: int, y0: int, px: int, py: int, x1: int, y1: int, p: nat) -> bool {
    let cross = (x1 - x0) * (py - y0) - (y1 - y0) * (px - x0);
    2 * abs(cross) * pow10(p) < pow10(20)
}

pub open spec fn is_digit(c: char) -> bool {
    '0' <= c && c <= '9'
}

pub open spec fn digit_char(d: int) -> char {
    if d == 0 {
        '0'
    } else if d == 1 {
        '1'
    } else if d == 2 {
        '2'
    } else if d == 3 {
        '3'
    } else if d == 4 {
        '4'
    } else if d == 5 {
        '5'
    } else if d == 6 {
        '6'
    } else if d == 7 {
        '7'
    } else if d == 8 {
        '8'
    } else {
        '9'
    }
}

/// The decimal digits of `n`, without leading zeros ("0" for zero).
pub open spec fn dec_digits(n: nat) -> Seq<char>
    decreases n,
{
    if n < 10 {
        seq![digit_char(n as int)]
    } else {
        dec_digits(n / 10).push(digit_char((n % 10) as int))
    }
}

/// The last `k` decimal digits of `n`, padded with leading zeros.
pub open spec fn padded_digits(n: nat, k: nat) -> Seq<char>
    decreases k,
{
    if k == 0 {
        seq![]
    } else {
        padded_digits(n / 10, (k - 1) as nat).push(digit_char((n % 10) as int))
    }
}

/// `s` without its trailing '0' characters.
pub open spec fn trim_zeros(s: Seq<char>) -> Seq<char>
    decreases s.len(),
{
    if s.len() > 0 && s.last() == '0' {
        trim_zeros(s.drop_last())
    } else {
        s
    }
}

/// The shortest decimal text of a coordinate: at most ten fraction digits, no trailing
/// zeros, no leading zero before the point (`.5`, `-.5`), and `0` for zero.
pub open spec fn format_num(v: int) -> Seq<char> {
    if v == 0 {
        seq!['0']
    } else {
        let m = abs(v);
        let ip = m / (SCALE as int);
        let fp = m % (SCALE as int);
        (if v < 0 {
            seq!['-']
        } else {
            seq![]
        }) + (if ip == 0 {
            seq![]
        } else {
            dec_digits(ip as nat)
        }) + (if fp == 0 {
            seq![]
        } else {
            seq!['.'] + trim_zeros(padded_digits(fp as nat, 10))
        })
    }
}

/// The text of a coordinate rounded to `p` decimal places.
pub open spec fn round_and_format(v: int, p: nat) -> Seq<char> {
    format_num(round_to(v, p))
}

pub proof fn lemma_pow10_pos(n: nat)
    ensures
        pow10(n) >= 1,
    decreases n,
{
    if n > 0 {
        lemma_pow10_pos((n - 1) as nat);
    }
}

pub proof fn lemma_pow10_mono(a: nat, b: nat)
    requires
        a <= b,
    ensures
        pow10(a) <= pow10(b),
    decreases b,
{
    if a < b {
        lemma_pow10_mono(a, (b - 1) as nat);
        lemma_pow10_pos((b - 1) as nat);
    }
}

pub proof fn lemma_pow10_add(a: nat, b: nat)
    ensures
        pow10(a + b) == pow10(a) * pow10(b),
    decreases b,
{
    if b > 0 {
        let b1 = (b - 1) as nat;
        lemma_pow10_add(a, b1);
        assert(a + b1 == (a + b - 1) as nat);
        assert(pow10(a + b) == 10 * pow10(a + b1));
        assert(pow10(b) == 10 * pow10(b1));
        let x = pow10(a);
        let y = pow10(b1);
        assert(x * (10 * y) == 10 * (x * y)) by (nonlinear_arith);
        assert(pow10(a) * pow10(b) == x * (10 * y));
    } else {
        assert(pow10(b) == 1);
        assert(a + b == a);
        let x = pow10(a);
        assert(x * 1 == x);
    }
}

pub proof fn lemma_pow10_values()
    ensures
        pow10(10) == 10_000_000_000,
        pow10(18) == 1_000_000_000_000_000_000,
        pow10(19) == 10_000_000_000_000_000_000,
        pow10(20) == 100_000_000_000_000_000_000,
        pow10(36) == 1_000_000_000_000_000_000_000_000_000_000_000_000,
        pow10(37) == 10_000_000_000_000_000_000_000_000_000_000_000_000,
        pow10(38) == 100_000_000_000_000_000_000_000_000_000_000_000_000,
{
    reveal_with_fuel(pow10, 39);
}

/// `10^k` for `k <= 38`.
/// A coordinate within range stays within range once rounded (the bound is a multiple of
/// every rounding step).
pub proof fn lemma_round_in_bound(v: int, p: nat)
    requires
        in_bound(v),
    ensures
        in_bound(round_to(v, p)),
{
    if p < 10 {
        let k = (10 - p) as nat;
        let j = (8 + p) as nat;
        lemma_pow10_add(k, j);
        assert(k + j == 18);
        lemma_pow10_values();
        lemma_pow10_pos(k);
        lemma_pow10_pos(j);
        let m = pow10(k) as int;
        let big = pow10(j) as int;
        assert(BOUND as int == m * big);
        let a = abs(v);
        let q = (2 * a + m) / (2 * m);
        assert(q * (2 * m) <= 2 * a + m) by (nonlinear_arith)
            requires
                m >= 1,
                a >= 0,
                q == (2 * a + m) / (2 * m),
        ;
        assert(q >= 0) by (nonlinear_arith)
            requires
                m >= 1,
                a >= 0,
                q == (2 * a + m) / (2 * m),
        ;
        assert(q <= big) by (nonlinear_arith)
            requires
                q * (2 * m) <= 2 * a + m,
                a <= m * big,
                m >= 1,
        ;
        assert(q * m <= big * m) by (nonlinear_arith)
            requires
                q <= big,
                m >= 1,
        ;
        assert(q * m >= 0) by (nonlinear_arith)
            requires
                q >= 0,
                m >= 1,
        ;
        assert(big * m == m * big) by (nonlinear_arith);
        if v >= 0 {
            assert(round_to(v, p) == q * m);
        } else {
            assert(div_round(v, m) == -q);
            assert(round_to(v, p) == (-q) * m);
            assert((-q) * m == -(q * m)) by (nonlinear_arith);
        }
    }
}

/// A number that rounding to `p` places leaves as it is.
pub open spec fn on_grid(v: int, p: nat) -> bool {
    round_to(v, p) == v
}

proof fn lemma_div_round_exact(k: int, m: int)
    requires
        m >= 1,
    ensures
        div_round(k * m, m) == k,
{
    if k >= 0 {
        assert(k * m >= 0) by (nonlinear_arith)
            requires
                k >= 0,
                m >= 1,
        ;
        assert((2 * (k * m) + m) / (2 * m) == k) by (nonlinear_arith)
            requires
                k >= 0,
                m >= 1,
        ;
    } else {
        assert(k * m < 0) by (nonlinear_arith)
            requires
                k < 0,
                m >= 1,
        ;
        let j = -k;
        assert(-(k * m) == j * m) by (nonlinear_arith)
            requires
                j == -k,
        ;
        assert((2 * (j * m) + m) / (2 * m) == j) by (nonlinear_arith)
            requires
                j >= 0,
                m >= 1,
        ;
    }
}

/// A rounded number, a difference of numbers on the grid, and 0 are on the grid.
pub proof fn lemma_grid(a: int, b: int, p: nat)
    ensures
        on_grid(round_to(a, p), p),
        on_grid(0, p),
        on_grid(a, p) && on_grid(b, p) ==> on_grid(a - b, p),
{
    if p < 10 {
        let m = pow10((10 - p) as nat) as int;
        lemma_pow10_pos((10 - p) as nat);
        let q = div_round(a, m);
        lemma_div_round_exact(q, m);
        lemma_div_round_exact(0, m);
        assert(0 * m == 0);
        if on_grid(a, p) && on_grid(b, p) {
            let qa = div_round(a, m);
            let qb = div_round(b, m);
            assert(a == qa * m);
            assert(b == qb * m);
            assert(a - b == (qa - qb) * m) by (nonlinear_arith)
                requires
                    a == qa * m,
                    b == qb * m,
            ;
            lemma_div_round_exact(qa - qb, m);
        }
    }
}

/// Rounding keeps 0 and one unit as they are.
pub proof fn lemma_round_flags(p: nat)
    ensures
        round_to(0, p) == 0,
        round_to(SCALE as int, p) == SCALE as int,
{
    lemma_pow10_values();
    if p < 10 {
        let m = pow10((10 - p) as nat) as int;
        lemma_pow10_pos((10 - p) as nat);
        lemma_pow10_pos(p);
        let k = pow10(p) as int;
        lemma_pow10_add((10 - p) as nat, p);
        assert((10 - p) as nat + p == 10);
        assert(SCALE as int == m * k);
        assert((2 * (m * k) + m) / (2 * m) == k) by (nonlinear_arith)
            requires
                m >= 1,
                k >= 1,
        ;
        assert((2 * 0 + m) / (2 * m) == 0) by (nonlinear_arith)
            requires
                m >= 1,
        ;
        assert(0 * m == 0);
        assert(k * m == m * k) by (nonlinear_arith);
    }
}

pub fn pow10_exec(k: u32) -> (r: i128)
    requires
        k <= 38,
    ensures
        r == pow10(k as nat),
{
    let mut r: i128 = 1;
    let mut i: u32 = 0;
    proof {
        lemma_pow10_values();
    }
    while i < k
        invariant
            i <= k <= 38,
            r == pow10(i as nat),
            pow10(38) == 100_000_000_000_000_000_000_000_000_000_000_000_000,
        decreases k - i,
    {
        proof {
            lemma_pow10_mono((i + 1) as nat, 38);
        }
        r = r * 10;
        i = i + 1;
    }
    r
}

/// `a / m` rounded half away from zero.
pub fn div_round_exec(a: i128, m: i128) -> (r: i128)
    requires
        m > 0,
        -pow10(37) <= a <= pow10(37),
        m <= pow10(37),
    ensures
        r == div_round(a as int, m as int),
{
    proof {
        lemma_pow10_values();
    }
    if a >= 0 {
        (2 * a + m) / (2 * m)
    } else {
        -((2 * (-a) + m) / (2 * m))
    }
}

/// Whether two coordinates agree once rounded to `p` decimal places.
pub fn approx_eq_exec(a: i128, b: i128, p: u32) -> (r: bool)
    requires
        abs(a as int) <= 4 * BOUND,
        abs(b as int) <= 4 * BOUND,
    ensures
        r == approx_eq(a as int, b as int, p as nat),
{
    if p >= 10 {
        a == b
    } else {
        let m = pow10_exec(10 - p);
        proof {
            lemma_pow10_values();
            lemma_pow10_mono((10 - p) as nat, 10);
            lemma_pow10_pos((10 - p) as nat);
        }
        div_round_exec(a, m) == div_round_exec(b, m)
    }
}

/// A coordinate rounded to `p` decimal places.
pub fn round_to_exec(a: i128, p: u32) -> (r: i128)
    requires
        abs(a as int) <= 4 * BOUND,
    ensures
        r == round_to(a as int, p as nat),
        abs(r as int) <= 4 * BOUND + SCALE,
{
    if p >= 10 {
        a
    } else {
        let m = pow10_exec(10 - p);
        proof {
            lemma_pow10_values();
            lemma_pow10_mono((10 - p) as nat, 10);
            lemma_pow10_pos((10 - p) as nat);
        }
        let q = div_round_exec(a, m);
        proof {
            lemma_div_round_bound(a as int, m as int);
        }
        q * m
    }
}

proof fn lemma_div_round_bound(a: int, m: int)
    requires
        1 <= m <= SCALE,
        abs(a) <= 4 * BOUND,
    ensures
        abs(div_round(a, m) * m) <= 4 * BOUND + SCALE,
        abs(div_round(a, m)) <= 4 * BOUND + SCALE,
{
    let q = if a >= 0 {
        (2 * a + m) / (2 * m)
    } else {
        (2 * (-a) + m) / (2 * m)
    };
    let b = abs(a);
    assert(q == (2 * b + m) / (2 * m));
    assert(q * (2 * m) <= 2 * b + m) by (nonlinear_arith)
        requires
            q == (2 * b + m) / (2 * m),
            m >= 1,
            b >= 0,
    ;
    assert(q >= 0) by (nonlinear_arith)
        requires
            q == (2 * b + m) / (2 * m),
            m >= 1,
            b >= 0,
    ;
    assert(q * m <= b + m) by (nonlinear_arith)
        requires
            q * (2 * m) <= 2 * b + m,
            m >= 1,
    ;
    assert(q <= q * m) by (nonlinear_arith)
        requires
            q >= 0,
            m >= 1,
    ;
    assert(abs(div_round(a, m)) == q);
    assert(abs(div_round(a, m) * m) == q * m) by (nonlinear_arith)
        requires
            abs(div_round(a, m)) == q,
            q >= 0,
            m >= 1,
    ;
}

/// Whether `(px, py)` lies on the line through `(x0, y0)` and `(x1, y1)` at precision `p`.
pub fn collinear_exec(x0: i128, y0: i128, px: i128, py: i128, x1: i128, y1: i128, p: u32) -> (r:
    bool)
    requires
        in_bound(x0 as int),
        in_bound(y0 as int),
        in_bound(px as int),
        in_bound(py as int),
        in_bound(x1 as int),
        in_bound(y1 as int),
    ensures
        r == collinear(x0 as int, y0 as int, px as int, py as int, x1 as int, y1 as int, p as nat),
{
    let ax = x1 - x0;
    let ay = y1 - y0;
    let bx = px - x0;
    let by = py - y0;
    proof {
        lemma_product_bound(ax as int, by as int);
        lemma_product_bound(ay as int, bx as int);
    }
    let cross = ax * by - ay * bx;
    let ghost ci: int = (x1 - x0) * (py - y0) - (y1 - y0) * (px - x0);
    assert(cross as int == ci);
    let c = if cross < 0 {
        -cross
    } else {
        cross
    };
    assert(c as int == abs(ci));
    proof {
        lemma_pow10_values();
    }
    if p >= 20 {
        proof {
            lemma_pow10_mono(20, p as nat);
            let q = pow10(p as nat) as int;
            if c != 0 {
                assert(2 * c * q >= 2 * q) by (nonlinear_arith)
                    requires
                        c >= 1,
                        q >= 1,
                ;
                assert(!collinear(x0 as int, y0 as int, px as int, py as int, x1 as int, y1 as int, p as nat));
            } else {
                assert(2 * abs(ci) * q == 0) by (nonlinear_arith)
                    requires
                        abs(ci) == 0,
                ;
                assert(collinear(x0 as int, y0 as int, px as int, py as int, x1 as int, y1 as int, p as nat));
            }
        }
        c == 0
    } else {
        let m = pow10_exec(20 - p);
        proof {
            lemma_pow10_add((20 - p) as nat, p as nat);
            assert((20 - p) as nat + p as nat == 20);
            lemma_pow10_pos(p as nat);
            lemma_pow10_pos((20 - p) as nat);
            lemma_scale_lt(2 * c, m as int, pow10(p as nat) as int);
        }
        2 * c < m
    }
}

proof fn lemma_product_bound(a: int, b: int)
    requires
        abs(a) <= 2 * BOUND,
        abs(b) <= 2 * BOUND,
    ensures
        abs(a * b) <= 4_000_000_000_000_000_000_000_000_000_000_000_000,
{
    let k: int = 2_000_000_000_000_000_000;
    let x = abs(a);
    let y = abs(b);
    assert(x * y <= k * k) by (nonlinear_arith)
        requires
            0 <= x <= k,
            0 <= y <= k,
    ;
    if a >= 0 && b >= 0 {
        assert(a * b == x * y);
    } else if a < 0 && b >= 0 {
        assert(a * b == -(x * y)) by (nonlinear_arith)
            requires
                x == -a,
                y == b,
        ;
    } else if a >= 0 && b < 0 {
        assert(a * b == -(x * y)) by (nonlinear_arith)
            requires
                x == a,
                y == -b,
        ;
    } else {
        assert(a * b == x * y) by (nonlinear_arith)
            requires
                x == -a,
                y == -b,
        ;
    }
    assert(x * y >= 0) by (nonlinear_arith)
        requires
            x >= 0,
            y >= 0,
    ;
    assert(k * k == 4_000_000_000_000_000_000_000_000_000_000_000_000) by (nonlinear_arith)
        requires
            k == 2_000_000_000_000_000_000,
    ;
}

proof fn lemma_scale_lt(x: int, m: int, q: int)
    requires
        q >= 1,
        x >= 0,
        m >= 1,
    ensures
        (x * q < m * q) == (x < m),
{
    if x < m {
        assert(x * q < m * q) by (nonlinear_arith)
            requires
                x < m,
                q >= 1,
        ;
    } else {
        assert(x * q >= m * q) by (nonlinear_arith)
            requires
                x >= m,
                q >= 1,
        ;
    }
}

pub fn digit_char_exec(d: u64) -> (c: char)
    requires
        d < 10,
    ensures
        c == digit_char(d as int),
{
    if d == 0 {
        '0'
    } else if d == 1 {
        '1'
    } else if d == 2 {
        '2'
    } else if d == 3 {
        '3'
    } else if d == 4 {
        '4'
    } else if d == 5 {
        '5'
    } else if d == 6 {
        '6'
    } else if d == 7 {
        '7'
    } else if d == 8 {
        '8'
    } else {
        '9'
    }
}

fn write_dec(out: &mut Vec<char>, n: u64)
    ensures
        final(out)@ == old(out)@ + dec_digits(n as nat),
    decreases n,
{
    if n < 10 {
        out.push(digit_char_exec(n));
        assert(dec_digits(n as nat) == seq![digit_char(n as int)]);
    } else {
        write_dec(out, n / 10);
        out.push(digit_char_exec(n % 10));
    }
}

fn write_padded(out: &mut Vec<char>, n: u64, k: u32)
    ensures
        final(out)@ == old(out)@ + padded_digits(n as nat, k as nat),
    decreases k,
{
    if k == 0 {
        assert(old(out)@ + padded_digits(n as nat, 0) =~= old(out)@);
    } else {
        write_padded(out, n / 10, k - 1);
        out.push(digit_char_exec(n % 10));
    }
}

fn trim_zeros_exec(v: &mut Vec<char>)
    ensures
        final(v)@ == trim_zeros(old(v)@),
{
    while v.len() > 0 && v[v.len() - 1] == '0'
        invariant
            trim_zeros(v@) == trim_zeros(old(v)@),
        decreases v@.len(),
    {
        let ghost before = v@;
        v.pop();
        assert(v@ =~= before.drop_last());
    }
}

/// The shortest decimal text of a coordinate.
pub fn format_num_exec(v: i128) -> (r: Vec<char>)
    requires
        abs(v as int) <= 4 * BOUND + SCALE,
    ensures
        r@ == format_num(v as int),
{
    let mut out: Vec<char> = Vec::new();
    if v == 0 {
        out.push('0');
        assert(out@ =~= seq!['0']);
        return out;
    }
    let m: i128 = if v < 0 {
        -v
    } else {
        v
    };
    let mu: u64 = m as u64;
    let ip: u64 = mu / 10_000_000_000u64;
    let fp: u64 = mu % 10_000_000_000u64;
    if v < 0 {
        out.push('-');
    }
    let ghost s1 = out@;
    if ip != 0 {
        write_dec(&mut out, ip);
    }
    let ghost s2 = out@;
    if fp != 0 {
        out.push('.');
        let mut frac: Vec<char> = Vec::new();
        write_padded(&mut frac, fp, 10);
        assert(frac@ =~= padded_digits(fp as nat, 10));
        trim_zeros_exec(&mut frac);
        let ghost s3 = out@;
        let mut i: usize = 0;
        while i < frac.len()
            invariant
                0 <= i <= frac@.len(),
                out@ == s3 + frac@.take(i as int),
            decreases frac@.len() - i,
        {
            out.push(frac[i]);
            i = i + 1;
            assert(out@ =~= s3 + frac@.take(i as int));
        }
        assert(frac@.take(frac@.len() as int) =~= frac@);
    }
    proof {
        let sign: Seq<char> = if v < 0 { seq!['-'] } else { seq![] };
        assert(s1 =~= sign);
        let ipart: Seq<char> = if ip == 0 { seq![] } else { dec_digits(ip as nat) };
        assert(s2 =~= sign + ipart);
        assert(out@ =~= sign + ipart + (if fp == 0 { seq![] } else { seq!['.'] + trim_zeros(padded_digits(fp as nat, 10)) }));
    }
    out
}

} // verus!

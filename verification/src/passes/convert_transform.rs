//! The `transform` attribute: the pass's settings, and reading a list of transforms.
use vstd::prelude::*;

use crate::path::grammar::{digits_end, lemma_digits_end_ge, lemma_skip_ge, skip_sep};
use crate::text::{chars_of, is_ascii_ws, is_ascii_ws_exec, str_eq, string_from_range};

verus! {

broadcast use vstd::std_specs::vec::group_vec_axioms;

/// Merges, simplifies or applies the `transform` attribute of elements, at `precision`
/// decimal places.
pub struct ConvertTransform {
    pub precision: u32,
}

impl Default for ConvertTransform {
    fn default() -> (r: Self)
        ensures
            r.precision == 3,
    {
        Self { precision: 3 }
    }
}

/// The transform functions that are understood.
#[derive(Debug, Clone, Copy, PartialEq, Eq, Structural)]
pub enum TransformKind {
    Translate,
    Scale,
    Rotate,
    SkewX,
    SkewY,
    Matrix,
}

/// One transform function of a list, with the text of each of its numbers.
pub struct TransformItem {
    pub kind: TransformKind,
    pub args: Vec<String>,
}

pub struct TItemV {
    pub kind: TransformKind,
    pub args: Seq<Seq<char>>,
}

pub open spec fn strings_view(v: Seq<String>) -> Seq<Seq<char>> {
    v.map_values(|s: String| s@)
}

impl View for TransformItem {
    type V = TItemV;

    open spec fn view(&self) -> TItemV {
        TItemV { kind: self.kind, args: strings_view(self.args@) }
    }
}

pub open spec fn items_view(v: Seq<TransformItem>) -> Seq<TItemV> {
    v.map_values(|t: TransformItem| t@)
}

/// The position after the white space that starts at `p`.
pub open spec fn skip_ws(s: Seq<char>, p: int) -> int
    decreases s.len() - p,
{
    if 0 <= p < s.len() && is_ascii_ws(s[p]) {
        skip_ws(s, p + 1)
    } else {
        p
    }
}

pub open spec fn is_alpha(c: char) -> bool {
    ('a' <= c && c <= 'z') || ('A' <= c && c <= 'Z')
}

/// The position after the ASCII letters that start at `p`.
pub open spec fn alpha_end(s: Seq<char>, p: int) -> int
    decreases s.len() - p,
{
    if 0 <= p < s.len() && is_alpha(s[p]) {
        alpha_end(s, p + 1)
    } else {
        p
    }
}

/// Where the number that starts at `q` ends: optional sign, digits, optional point and
/// digits (at least one digit in all), optional exponent with at least one digit. `None`
/// where no number is there.
pub open spec fn number_end(s: Seq<char>, q: int) -> Option<int> {
    let q1 = if 0 <= q < s.len() && (s[q] == '-' || s[q] == '+') {
        q + 1
    } else {
        q
    };
    let q2 = digits_end(s, q1);
    let q3 = if 0 <= q2 < s.len() && s[q2] == '.' {
        q2 + 1
    } else {
        q2
    };
    let q4 = digits_end(s, q3);
    if q2 == q1 && q4 == q3 {
        None
    } else if 0 <= q4 < s.len() && (s[q4] == 'e' || s[q4] == 'E') {
        let q5 = q4 + 1;
        let q6 = if q5 < s.len() && (s[q5] == '+' || s[q5] == '-') {
            q5 + 1
        } else {
            q5
        };
        let q7 = digits_end(s, q6);
        if q7 == q6 {
            None
        } else {
            Some(q7)
        }
    } else {
        Some(q4)
    }
}

pub proof fn lemma_number_end(s: Seq<char>, q: int)
    requires
        0 <= q <= s.len(),
    ensures
        number_end(s, q) matches Some(e) ==> q < e <= s.len(),
{
    let q1 = if 0 <= q < s.len() && (s[q] == '-' || s[q] == '+') {
        q + 1
    } else {
        q
    };
    lemma_digits_end_ge(s, q1);
    let q2 = digits_end(s, q1);
    let q3 = if 0 <= q2 < s.len() && s[q2] == '.' {
        q2 + 1
    } else {
        q2
    };
    lemma_digits_end_ge(s, q3);
    let q4 = digits_end(s, q3);
    if 0 <= q4 < s.len() && (s[q4] == 'e' || s[q4] == 'E') {
        let q5 = q4 + 1;
        let q6 = if q5 < s.len() && (s[q5] == '+' || s[q5] == '-') {
            q5 + 1
        } else {
            q5
        };
        lemma_digits_end_ge(s, q6);
    }
}

/// What reading the numbers of one transform function yields: their texts and where the
/// closing parenthesis ends, or an error.
pub enum ArgsLex {
    Done(Seq<Seq<char>>, int),
    Fail,
}

/// Reads numbers (separated by white space or commas) from `p` up to and with `)`.
pub open spec fn lex_args(s: Seq<char>, p: int) -> ArgsLex
    decreases s.len() - p,
{
    let q = skip_sep(s, p);
    if p < 0 || p > s.len() {
        ArgsLex::Fail
    } else if q < s.len() && s[q] == ')' {
        ArgsLex::Done(seq![], q + 1)
    } else {
        match number_end(s, q) {
            None => ArgsLex::Fail,
            Some(e) => {
                proof {
                    lemma_skip_ge(s, p);
                    lemma_number_end(s, q);
                }
                match lex_args(s, e) {
                    ArgsLex::Done(a, e2) => ArgsLex::Done(seq![s.subrange(q, e)] + a, e2),
                    ArgsLex::Fail => ArgsLex::Fail,
                }
            },
        }
    }
}

pub proof fn lemma_lex_args(s: Seq<char>, p: int)
    requires
        0 <= p <= s.len(),
    ensures
        lex_args(s, p) matches ArgsLex::Done(a, e) ==> p < e <= s.len(),
    decreases s.len() - p,
{
    lemma_skip_ge(s, p);
    let q = skip_sep(s, p);
    if !(q < s.len() && s[q] == ')') {
        lemma_number_end(s, q);
        match number_end(s, q) {
            Some(e) => {
                lemma_lex_args(s, e);
            },
            None => {},
        }
    }
}

/// The transform function a name stands for, given its count of numbers.
pub open spec fn kind_for(name: Seq<char>, n: nat) -> Option<TransformKind> {
    if name == "translate"@ && (n == 1 || n == 2) {
        Some(TransformKind::Translate)
    } else if name == "scale"@ && (n == 1 || n == 2) {
        Some(TransformKind::Scale)
    } else if name == "rotate"@ && (n == 1 || n == 3) {
        Some(TransformKind::Rotate)
    } else if name == "skewX"@ && n == 1 {
        Some(TransformKind::SkewX)
    } else if name == "skewY"@ && n == 1 {
        Some(TransformKind::SkewY)
    } else if name == "matrix"@ && n == 6 {
        Some(TransformKind::Matrix)
    } else {
        None
    }
}

pub open spec fn cons_item(x: TItemV, r: Option<Seq<TItemV>>) -> Option<Seq<TItemV>> {
    match r {
        Some(rest) => Some(seq![x] + rest),
        None => None,
    }
}

/// Reads transform functions from `p`: a name, `(`, its numbers, `)`, and an optional
/// comma before the next. `None` where a name is missing or unknown, a parenthesis is
/// missing, a number is malformed, or the count of numbers does not suit the function.
pub open spec fn lex_list(s: Seq<char>, p: int) -> Option<Seq<TItemV>>
    decreases s.len() - p,
{
    let q = skip_ws(s, p);
    if p < 0 || q >= s.len() {
        Some(seq![])
    } else {
        let e = alpha_end(s, q);
        let q2 = skip_ws(s, e);
        if e == q || q2 >= s.len() || s[q2] != '(' {
            None
        } else {
            match lex_args(s, q2 + 1) {
                ArgsLex::Fail => None,
                ArgsLex::Done(args, e2) => match kind_for(s.subrange(q, e), args.len()) {
                    None => None,
                    Some(k) => {
                        let q3 = skip_ws(s, e2);
                        let q4 = if q3 < s.len() && s[q3] == ',' {
                            q3 + 1
                        } else {
                            q3
                        };
                        proof {
                            lemma_ws_ge(s, p);
                            lemma_alpha_ge(s, q);
                            lemma_ws_ge(s, e);
                            lemma_lex_args(s, q2 + 1);
                            lemma_ws_ge(s, e2);
                        }
                        cons_item(TItemV { kind: k, args }, lex_list(s, q4))
                    },
                },
            }
        }
    }
}

/// The transform functions of a `transform` attribute's text.
pub open spec fn sp_transform_list(s: Seq<char>) -> Option<Seq<TItemV>> {
    lex_list(s, 0)
}

pub proof fn lemma_ws_ge(s: Seq<char>, p: int)
    requires
        0 <= p,
    ensures
        p <= skip_ws(s, p),
        skip_ws(s, p) <= s.len() || skip_ws(s, p) == p,
    decreases s.len() - p,
{
    if 0 <= p < s.len() && is_ascii_ws(s[p]) {
        lemma_ws_ge(s, p + 1);
    }
}

pub proof fn lemma_alpha_ge(s: Seq<char>, p: int)
    requires
        0 <= p,
    ensures
        p <= alpha_end(s, p),
        alpha_end(s, p) <= s.len() || alpha_end(s, p) == p,
    decreases s.len() - p,
{
    if 0 <= p < s.len() && is_alpha(s[p]) {
        lemma_alpha_ge(s, p + 1);
    }
}

fn skip_ws_exec(s: &Vec<char>, p: usize) -> (r: usize)
    requires
        p <= s@.len(),
    ensures
        r == skip_ws(s@, p as int),
        p <= r <= s@.len(),
{
    let mut i = p;
    while i < s.len() && is_ascii_ws_exec(s[i])
        invariant
            p <= i <= s@.len(),
            skip_ws(s@, i as int) == skip_ws(s@, p as int),
        decreases s@.len() - i,
    {
        i = i + 1;
    }
    i
}

fn alpha_end_exec(s: &Vec<char>, p: usize) -> (r: usize)
    requires
        p <= s@.len(),
    ensures
        r == alpha_end(s@, p as int),
        p <= r <= s@.len(),
{
    let mut i = p;
    while i < s.len() && (('a' <= s[i] && s[i] <= 'z') || ('A' <= s[i] && s[i] <= 'Z'))
        invariant
            p <= i <= s@.len(),
            alpha_end(s@, i as int) == alpha_end(s@, p as int),
        decreases s@.len() - i,
    {
        i = i + 1;
    }
    i
}

fn digits_end_exec(s: &Vec<char>, p: usize) -> (r: usize)
    requires
        p <= s@.len(),
    ensures
        r == digits_end(s@, p as int),
        p <= r <= s@.len(),
{
    let mut i = p;
    while i < s.len() && ('0' <= s[i] && s[i] <= '9')
        invariant
            p <= i <= s@.len(),
            digits_end(s@, i as int) == digits_end(s@, p as int),
        decreases s@.len() - i,
    {
        i = i + 1;
    }
    i
}

fn number_end_exec(s: &Vec<char>, q: usize) -> (r: Option<usize>)
    requires
        q <= s@.len(),
    ensures
        r matches Some(e) ==> number_end(s@, q as int) == Some(e as int),
        r is None ==> number_end(s@, q as int) is None,
{
    let q1 = if q < s.len() && (s[q] == '-' || s[q] == '+') {
        q + 1
    } else {
        q
    };
    let q2 = digits_end_exec(s, q1);
    let q3 = if q2 < s.len() && s[q2] == '.' {
        q2 + 1
    } else {
        q2
    };
    let q4 = digits_end_exec(s, q3);
    if q2 == q1 && q4 == q3 {
        None
    } else if q4 < s.len() && (s[q4] == 'e' || s[q4] == 'E') {
        let q5 = q4 + 1;
        let q6 = if q5 < s.len() && (s[q5] == '+' || s[q5] == '-') {
            q5 + 1
        } else {
            q5
        };
        let q7 = digits_end_exec(s, q6);
        if q7 == q6 {
            None
        } else {
            Some(q7)
        }
    } else {
        Some(q4)
    }
}

fn skip_sep_exec(s: &Vec<char>, p: usize) -> (r: usize)
    requires
        p <= s@.len(),
    ensures
        r == skip_sep(s@, p as int),
        p <= r <= s@.len(),
{
    crate::path::grammar::skip_sep_exec(s, p)
}

pub open spec fn prepend_lex(acc: Seq<Seq<char>>, r: ArgsLex) -> ArgsLex {
    match r {
        ArgsLex::Done(a, e) => ArgsLex::Done(acc + a, e),
        ArgsLex::Fail => ArgsLex::Fail,
    }
}

fn lex_args_exec(s: &Vec<char>, p: usize) -> (r: Option<(Vec<String>, usize)>)
    requires
        p <= s@.len(),
    ensures
        r matches Some((v, e)) ==> lex_args(s@, p as int) == ArgsLex::Done(strings_view(v@), e as int)
            && p < e <= s@.len(),
        r is None ==> lex_args(s@, p as int) == ArgsLex::Fail,
{
    let mut acc: Vec<String> = Vec::new();
    let mut pos = p;
    proof {
        assert(strings_view(acc@) =~= Seq::<Seq<char>>::empty());
        match lex_args(s@, p as int) {
            ArgsLex::Done(a, e) => {
                assert(Seq::<Seq<char>>::empty() + a =~= a);
            },
            _ => {},
        }
    }
    loop
        invariant
            p <= pos <= s@.len(),
            lex_args(s@, p as int) == prepend_lex(strings_view(acc@), lex_args(s@, pos as int)),
        decreases s@.len() - pos,
    {
        let q = skip_sep_exec(s, pos);
        if q < s.len() && s[q] == ')' {
            proof {
                assert(strings_view(acc@) + Seq::<Seq<char>>::empty() =~= strings_view(acc@));
            }
            return Some((acc, q + 1));
        }
        match number_end_exec(s, q) {
            None => {
                return None;
            },
            Some(e) => {
                proof {
                    lemma_number_end(s@, q as int);
                }
                let t = string_from_range(s, q, e);
                proof {
                    let ghost before = strings_view(acc@);
                    assert(strings_view(acc@.push(t)) =~= before.push(t@));
                    match lex_args(s@, e as int) {
                        ArgsLex::Done(a, e2) => {
                            assert(before + (seq![t@] + a) =~= before.push(t@) + a);
                        },
                        _ => {},
                    }
                }
                acc.push(t);
                pos = e;
            },
        }
    }
}

fn kind_for_exec(s: &Vec<char>, a: usize, b: usize, n: usize) -> (r: Option<TransformKind>)
    requires
        a <= b <= s@.len(),
    ensures
        r == kind_for(s@.subrange(a as int, b as int), n as nat),
{
    let name = string_from_range(s, a, b);
    let nm = name.as_str();
    proof {
        reveal_strlit("translate");
        reveal_strlit("scale");
        reveal_strlit("rotate");
        reveal_strlit("skewX");
        reveal_strlit("skewY");
        reveal_strlit("matrix");
    }
    if str_eq(nm, "translate") && (n == 1 || n == 2) {
        Some(TransformKind::Translate)
    } else if str_eq(nm, "scale") && (n == 1 || n == 2) {
        Some(TransformKind::Scale)
    } else if str_eq(nm, "rotate") && (n == 1 || n == 3) {
        Some(TransformKind::Rotate)
    } else if str_eq(nm, "skewX") && n == 1 {
        Some(TransformKind::SkewX)
    } else if str_eq(nm, "skewY") && n == 1 {
        Some(TransformKind::SkewY)
    } else if str_eq(nm, "matrix") && n == 6 {
        Some(TransformKind::Matrix)
    } else {
        None
    }
}

pub open spec fn prepend_items(acc: Seq<TItemV>, r: Option<Seq<TItemV>>) -> Option<Seq<TItemV>> {
    match r {
        Some(rest) => Some(acc + rest),
        None => None,
    }
}

/// The transform functions of a `transform` attribute's text, each with the text of its
/// numbers; `None` where the text is malformed.
pub fn parse_transform_list(text: &str) -> (r: Option<Vec<TransformItem>>)
    ensures
        r matches Some(v) ==> sp_transform_list(text@) == Some(items_view(v@)),
        r is None ==> sp_transform_list(text@) is None,
{
    let s = chars_of(text);
    let mut acc: Vec<TransformItem> = Vec::new();
    let mut pos: usize = 0;
    proof {
        assert(items_view(acc@) =~= Seq::<TItemV>::empty());
        match lex_list(s@, 0) {
            Some(rest) => {
                assert(Seq::<TItemV>::empty() + rest =~= rest);
            },
            None => {},
        }
    }
    loop
        invariant
            s@ == text@,
            pos <= s@.len(),
            lex_list(s@, 0) == prepend_items(items_view(acc@), lex_list(s@, pos as int)),
        decreases s@.len() - pos,
    {
        let q = skip_ws_exec(&s, pos);
        if q >= s.len() {
            proof {
                assert(items_view(acc@) + Seq::<TItemV>::empty() =~= items_view(acc@));
            }
            return Some(acc);
        }
        let e = alpha_end_exec(&s, q);
        let q2 = skip_ws_exec(&s, e);
        if e == q || q2 >= s.len() || s[q2] != '(' {
            return None;
        }
        let (args, e2) = match lex_args_exec(&s, q2 + 1) {
            None => {
                return None;
            },
            Some(x) => x,
        };
        let k = match kind_for_exec(&s, q, e, args.len()) {
            None => {
                return None;
            },
            Some(k) => k,
        };
        let q3 = skip_ws_exec(&s, e2);
        let q4 = if q3 < s.len() && s[q3] == ',' {
            q3 + 1
        } else {
            q3
        };
        let item = TransformItem { kind: k, args };
        proof {
            let ghost before = items_view(acc@);
            assert(items_view(acc@.push(item)) =~= before.push(item@));
            match lex_list(s@, q4 as int) {
                Some(rest) => {
                    assert(before + (seq![item@] + rest) =~= before.push(item@) + rest);
                },
                None => {},
            }
        }
        acc.push(item);
        pos = q4;
    }
}

/// The name of each transform function.
pub open spec fn kind_name(k: TransformKind) -> Seq<char> {
    match k {
        TransformKind::Translate => "translate"@,
        TransformKind::Scale => "scale"@,
        TransformKind::Rotate => "rotate"@,
        TransformKind::SkewX => "skewX"@,
        TransformKind::SkewY => "skewY"@,
        TransformKind::Matrix => "matrix"@,
    }
}

/// The counts of numbers each transform function takes.
pub open spec fn takes_args(k: TransformKind, n: nat) -> bool {
    match k {
        TransformKind::Translate => n == 1 || n == 2,
        TransformKind::Scale => n == 1 || n == 2,
        TransformKind::Rotate => n == 1 || n == 3,
        TransformKind::SkewX => n == 1,
        TransformKind::SkewY => n == 1,
        TransformKind::Matrix => n == 6,
    }
}

/// A name with a count of numbers is read as the transform function of that name, and only
/// where the function takes that many numbers.
pub proof fn lemma_kind_named(name: Seq<char>, n: nat, k: TransformKind)
    ensures
        kind_for(name, n) == Some(k) <==> (kind_name(k) == name && takes_args(k, n)),
{
    reveal_strlit("translate");
    reveal_strlit("scale");
    reveal_strlit("rotate");
    reveal_strlit("skewX");
    reveal_strlit("skewY");
    reveal_strlit("matrix");
    assert("translate"@.len() == 9);
    assert("scale"@.len() == 5);
    assert("rotate"@.len() == 6);
    assert("skewX"@.len() == 5);
    assert("skewY"@.len() == 5);
    assert("matrix"@.len() == 6);
    assert("scale"@[1] != "skewX"@[1]);
    assert("scale"@[1] != "skewY"@[1]);
    assert("skewX"@[4] != "skewY"@[4]);
    assert("rotate"@[0] != "matrix"@[0]);
}

/// Every transform function read is the one its text names: for each item of a list read
/// from `p` on, its function's name stands in the text as a run of letters.
pub proof fn lemma_items_named(s: Seq<char>, p: int)
    requires
        lex_list(s, p) is Some,
    ensures
        forall|i: int|
            0 <= i < lex_list(s, p).unwrap().len() ==> exists|a: int, b: int|
                0 <= a < b <= s.len() && s.subrange(a, b) == kind_name(
                    (#[trigger] lex_list(s, p).unwrap()[i]).kind,
                ) && (b == s.len() || !is_alpha(s[b])),
    decreases s.len() - p,
{
    let q = skip_ws(s, p);
    if !(p < 0 || q >= s.len()) {
        let e = alpha_end(s, q);
        let q2 = skip_ws(s, e);
        lemma_ws_ge(s, p);
        lemma_alpha_ge(s, q);
        lemma_ws_ge(s, e);
        lemma_lex_args(s, q2 + 1);
        let args = lex_args(s, q2 + 1)->Done_0;
        let e2 = lex_args(s, q2 + 1)->Done_1;
        let k = kind_for(s.subrange(q, e), args.len()).unwrap();
        lemma_kind_named(s.subrange(q, e), args.len(), k);
        lemma_ws_ge(s, e2);
        let q3 = skip_ws(s, e2);
        let q4 = if q3 < s.len() && s[q3] == ',' {
            q3 + 1
        } else {
            q3
        };
        lemma_items_named(s, q4);
        let rest = lex_list(s, q4).unwrap();
        let all = lex_list(s, p).unwrap();
        assert(all == seq![TItemV { kind: k, args }] + rest);
        assert(e == s.len() || !is_alpha(s[e]));
        assert forall|i: int| 0 <= i < all.len() implies exists|a: int, b: int|
            0 <= a < b <= s.len() && s.subrange(a, b) == kind_name((#[trigger] all[i]).kind) && (b
                == s.len() || !is_alpha(s[b])) by {
            if i == 0 {
                assert(s.subrange(q, e) == kind_name(all[0].kind));
            } else {
                assert(all[i] == rest[i - 1]);
            }
        }
    }
}

} // verus!

//! The grammar of the language, as one deterministic specification-level
//! parser over a byte sequence. The executable parser in `parse` is proved
//! to return exactly what these functions compute.
//!
//! An expression is optional whitespace around one of three alternatives,
//! tried in order: a signed decimal literal; a parenthesized application of
//! one of six operator keywords; a dice roll `d<N>`. When every alternative
//! fails, the failure reported is the one whose offset lies furthest to the
//! right, with ties resolved in favor of the alternative tried first.

use vstd::prelude::*;

use crate::ast::{Ast, Expected, Op};

verus! {

/// Whitespace accepted around expressions: space, tab, carriage return,
/// newline.
pub open spec fn is_ws(c: u8) -> bool {
    c == 32 || c == 9 || c == 13 || c == 10
}

/// A decimal digit.
pub open spec fn is_digit(c: u8) -> bool {
    48 <= c && c <= 57
}

/// The outcome of a specification-level parse: the tree recognized and the
/// offset just past it, or the furthest offset reached and what was
/// expected there.
#[verifier::ext_equal]
pub enum PRes {
    Parsed { ast: Ast, end: int },
    NoParse { at: int, exp: Expected },
}

/// Of two failures, the one further to the right; the first on a tie.
pub open spec fn worse(a: PRes, b: PRes) -> PRes {
    match (a, b) {
        (PRes::NoParse { at: a1, .. }, PRes::NoParse { at: a2, .. }) => if a2 > a1 {
            b
        } else {
            a
        },
        _ => a,
    }
}

/// The first offset at or after `pos` that does not hold whitespace.
pub open spec fn skip_ws(s: Seq<u8>, pos: int) -> int
    decreases s.len() - pos,
        when 0 <= pos <= s.len()
{
    if pos < s.len() && is_ws(s[pos]) {
        skip_ws(s, pos + 1)
    } else {
        pos
    }
}

/// `skip_ws` never moves left and never leaves the input.
pub proof fn lemma_skip_ws_bounds(s: Seq<u8>, pos: int)
    requires
        0 <= pos <= s.len(),
    ensures
        pos <= skip_ws(s, pos) <= s.len(),
    decreases s.len() - pos,
{
    if pos < s.len() && is_ws(s[pos]) {
        lemma_skip_ws_bounds(s, pos + 1);
    }
}

/// The first offset at or after `pos` that does not hold a digit.
pub open spec fn scan_digits(s: Seq<u8>, pos: int) -> int
    decreases s.len() - pos,
        when 0 <= pos <= s.len()
{
    if pos < s.len() && is_digit(s[pos]) {
        scan_digits(s, pos + 1)
    } else {
        pos
    }
}

/// End of the optional fraction part starting at `e`: `.` followed by one
/// or more digits, consumed greedily; absent or malformed, `e` itself.
pub open spec fn frac_end(s: Seq<u8>, e: int) -> int {
    if e + 1 < s.len() && s[e] == 46 && is_digit(s[e + 1]) {
        scan_digits(s, e + 1)
    } else {
        e
    }
}

/// End of the optional exponent part starting at `f`: `e` or `E`, an
/// optional sign, one or more digits, consumed greedily; absent or
/// malformed, `f` itself.
pub open spec fn exp_end(s: Seq<u8>, f: int) -> int {
    if f < s.len() && (s[f] == 101 || s[f] == 69) {
        let g = if f + 1 < s.len() && (s[f + 1] == 43 || s[f + 1] == 45) {
            f + 2
        } else {
            f + 1
        };
        if g < s.len() && is_digit(s[g]) {
            scan_digits(s, g)
        } else {
            f
        }
    } else {
        f
    }
}

/// End of a maximal number literal starting at `pos`, if one starts there:
/// an optional `-`, then `0` or a nonzero digit followed by more digits,
/// then an optional fraction and an optional exponent.
pub open spec fn spec_number(s: Seq<u8>, pos: int) -> Option<int> {
    let p = if pos < s.len() && s[pos] == 45 {
        pos + 1
    } else {
        pos
    };
    if p < s.len() && s[p] == 48 {
        Some(exp_end(s, frac_end(s, p + 1)))
    } else if p < s.len() && 49 <= s[p] && s[p] <= 57 {
        Some(exp_end(s, frac_end(s, scan_digits(s, p + 1))))
    } else {
        None
    }
}

/// Whether the whole of `s` is one valid number literal.
pub open spec fn is_number_lit(s: Seq<u8>) -> bool {
    spec_number(s, 0) == Some(s.len() as int)
}

/// `scan_digits` never moves left and never leaves the input.
pub proof fn lemma_scan_digits_bounds(s: Seq<u8>, pos: int)
    requires
        0 <= pos <= s.len(),
    ensures
        pos <= scan_digits(s, pos) <= s.len(),
    decreases s.len() - pos,
{
    if pos < s.len() && is_digit(s[pos]) {
        lemma_scan_digits_bounds(s, pos + 1);
    }
}

/// The fraction part never moves left and never leaves the input.
pub proof fn lemma_frac_end_bounds(s: Seq<u8>, e: int)
    requires
        0 <= e <= s.len(),
    ensures
        e <= frac_end(s, e) <= s.len(),
{
    if e + 1 < s.len() && s[e] == 46 && is_digit(s[e + 1]) {
        lemma_scan_digits_bounds(s, e + 1);
    }
}

/// The exponent part never moves left and never leaves the input.
pub proof fn lemma_exp_end_bounds(s: Seq<u8>, f: int)
    requires
        0 <= f <= s.len(),
    ensures
        f <= exp_end(s, f) <= s.len(),
{
    if f < s.len() && (s[f] == 101 || s[f] == 69) {
        let g = if f + 1 < s.len() && (s[f + 1] == 43 || s[f + 1] == 45) {
            f + 2
        } else {
            f + 1
        };
        if g < s.len() && is_digit(s[g]) {
            lemma_scan_digits_bounds(s, g);
        }
    }
}

/// A number literal ends after its start and within the input.
pub proof fn lemma_spec_number_bounds(s: Seq<u8>, pos: int, end: int)
    requires
        0 <= pos <= s.len(),
        spec_number(s, pos) == Some(end),
    ensures
        pos < end <= s.len(),
{
    let p = if pos < s.len() && s[pos] == 45 {
        pos + 1
    } else {
        pos
    };
    if p < s.len() && s[p] == 48 {
        lemma_frac_end_bounds(s, p + 1);
        lemma_exp_end_bounds(s, frac_end(s, p + 1));
    } else if p < s.len() && 49 <= s[p] && s[p] <= 57 {
        lemma_scan_digits_bounds(s, p + 1);
        lemma_frac_end_bounds(s, scan_digits(s, p + 1));
        lemma_exp_end_bounds(s, frac_end(s, scan_digits(s, p + 1)));
    }
}

/// A digit run that stays within `end` scans the same way in the
/// cut-out `s[p..end]` as in `s`, shifted by `p`.
proof fn lemma_scan_digits_shift(s: Seq<u8>, p: int, end: int, x: int)
    requires
        0 <= p <= x <= end <= s.len(),
        scan_digits(s, x) <= end,
    ensures
        scan_digits(s.subrange(p, end), x - p) == scan_digits(s, x) - p,
    decreases end - x,
{
    let t = s.subrange(p, end);
    if x < end && is_digit(s[x]) {
        lemma_scan_digits_shift(s, p, end, x + 1);
    } else {
        if x < s.len() && is_digit(s[x]) {
            lemma_scan_digits_bounds(s, x + 1);
            assert(false);
        }
    }
}

/// A fraction part that stays within `end` scans the same way in the
/// cut-out `s[p..end]` as in `s`, shifted by `p`.
proof fn lemma_frac_shift(s: Seq<u8>, p: int, end: int, e: int)
    requires
        0 <= p <= e <= end <= s.len(),
        frac_end(s, e) <= end,
    ensures
        frac_end(s.subrange(p, end), e - p) == frac_end(s, e) - p,
{
    let t = s.subrange(p, end);
    if e + 1 < s.len() && s[e] == 46 && is_digit(s[e + 1]) {
        assert(scan_digits(s, e + 1) == scan_digits(s, e + 2));
        lemma_scan_digits_bounds(s, e + 2);
        assert(e + 1 < end);
        assert(t[e - p] == s[e] && t[e - p + 1] == s[e + 1]);
        lemma_scan_digits_shift(s, p, end, e + 1);
    } else {
        if e + 1 < end {
            assert(t[e - p] == s[e] && t[e - p + 1] == s[e + 1]);
        }
        assert(frac_end(t, e - p) == e - p);
    }
}

/// An exponent part that stays within `end` scans the same way in the
/// cut-out `s[p..end]` as in `s`, shifted by `p`.
proof fn lemma_exp_shift(s: Seq<u8>, p: int, end: int, f: int)
    requires
        0 <= p <= f <= end <= s.len(),
        exp_end(s, f) <= end,
    ensures
        exp_end(s.subrange(p, end), f - p) == exp_end(s, f) - p,
{
    let t = s.subrange(p, end);
    if f < s.len() && (s[f] == 101 || s[f] == 69) {
        let g = if f + 1 < s.len() && (s[f + 1] == 43 || s[f + 1] == 45) {
            f + 2
        } else {
            f + 1
        };
        if g < s.len() && is_digit(s[g]) {
            assert(scan_digits(s, g) == scan_digits(s, g + 1));
            lemma_scan_digits_bounds(s, g + 1);
            assert(g < end);
            assert(f + 1 < end);
            assert(t[f - p] == s[f] && t[f - p + 1] == s[f + 1] && t[g - p] == s[g]);
            lemma_scan_digits_shift(s, p, end, g);
        } else {
            if f < end {
                assert(t[f - p] == s[f]);
                if f + 1 < end {
                    assert(t[f - p + 1] == s[f + 1]);
                    if g < end {
                        assert(t[g - p] == s[g]);
                    }
                }
            }
            assert(exp_end(t, f - p) == f - p);
        }
    } else {
        if f < end {
            assert(t[f - p] == s[f]);
        }
        assert(exp_end(t, f - p) == f - p);
    }
}

/// The span a successful number scan consumes is in its entirety one
/// valid number literal.
pub proof fn lemma_number_span(s: Seq<u8>, pos: int, end: int)
    requires
        0 <= pos <= s.len(),
        spec_number(s, pos) == Some(end),
    ensures
        pos < end <= s.len(),
        is_number_lit(s.subrange(pos, end)),
{
    lemma_spec_number_bounds(s, pos, end);
    let p = if pos < s.len() && s[pos] == 45 {
        pos + 1
    } else {
        pos
    };
    if p < s.len() && s[p] == 48 {
        let fr = frac_end(s, p + 1);
        lemma_frac_end_bounds(s, p + 1);
        lemma_exp_end_bounds(s, fr);
        lemma_frac_shift(s, pos, end, p + 1);
        lemma_exp_shift(s, pos, end, fr);
    } else if p < s.len() && 49 <= s[p] && s[p] <= 57 {
        let d0 = scan_digits(s, p + 1);
        let fr = frac_end(s, d0);
        lemma_scan_digits_bounds(s, p + 1);
        lemma_frac_end_bounds(s, d0);
        lemma_exp_end_bounds(s, fr);
        lemma_scan_digits_shift(s, pos, end, p + 1);
        lemma_frac_shift(s, pos, end, d0);
        lemma_exp_shift(s, pos, end, fr);
    }
}

/// The first, second and third byte of an operator's keyword.
pub open spec fn kw0(op: Op) -> u8 {
    match op {
        Op::Add => 97,
        Op::Sub => 115,
        Op::Mul => 109,
        Op::Div => 100,
        Op::Max => 109,
        Op::Min => 109,
    }
}

pub open spec fn kw1(op: Op) -> u8 {
    match op {
        Op::Add => 100,
        Op::Sub => 117,
        Op::Mul => 117,
        Op::Div => 105,
        Op::Max => 97,
        Op::Min => 105,
    }
}

pub open spec fn kw2(op: Op) -> u8 {
    match op {
        Op::Add => 100,
        Op::Sub => 98,
        Op::Mul => 108,
        Op::Div => 118,
        Op::Max => 120,
        Op::Min => 110,
    }
}

/// Whether the three bytes of `op`'s keyword stand at `q`.
pub open spec fn kw_matches(s: Seq<u8>, q: int, op: Op) -> bool {
    q + 3 <= s.len() && s[q] == kw0(op) && s[q + 1] == kw1(op) && s[q + 2] == kw2(op)
}

/// One expression at `pos`: leading whitespace, then the first of number,
/// parenthesized application, or dice roll to match, then trailing
/// whitespace.
pub open spec fn spec_expr(s: Seq<u8>, pos: int) -> PRes
    decreases s.len() - pos, 1int,
        when 0 <= pos <= s.len()
{
    let p = skip_ws(s, pos);
    proof {
        lemma_skip_ws_bounds(s, pos);
    }
    match spec_number(s, p) {
        Some(end) => PRes::Parsed {
            ast: Ast::Num { lit: s.subrange(p, end) },
            end: skip_ws(s, end),
        },
        None => {
            let rp = spec_paren(s, p);
            if rp is Parsed {
                rp
            } else {
                let rd = spec_dice(s, p);
                if rd is Parsed {
                    rd
                } else {
                    worse(worse(PRes::NoParse { at: p, exp: Expected::Expression }, rp), rd)
                }
            }
        },
    }
}

/// A parenthesized application at `p`: `(`, optional whitespace, an
/// operator application, `)`, then trailing whitespace.
pub open spec fn spec_paren(s: Seq<u8>, p: int) -> PRes
    decreases s.len() - p, 0int,
        when 0 <= p <= s.len()
{
    if p < s.len() && s[p] == 40 {
        let q0 = skip_ws(s, p + 1);
        proof {
            lemma_skip_ws_bounds(s, p + 1);
        }
        match spec_app(s, q0) {
            PRes::Parsed { ast, end } => if 0 <= end < s.len() && s[end] == 41 {
                PRes::Parsed { ast, end: skip_ws(s, end + 1) }
            } else {
                PRes::NoParse { at: end, exp: Expected::CloseParen }
            },
            f => f,
        }
    } else {
        PRes::NoParse { at: p, exp: Expected::Expression }
    }
}

/// A dice roll at `p`: the byte `d` immediately followed by a number
/// literal, then trailing whitespace.
pub open spec fn spec_dice(s: Seq<u8>, p: int) -> PRes {
    if p < s.len() && s[p] == 100 {
        match spec_number(s, p + 1) {
            Some(end) => PRes::Parsed {
                ast: Ast::Dice { lit: s.subrange(p + 1, end) },
                end: skip_ws(s, end),
            },
            None => PRes::NoParse { at: p + 1, exp: Expected::Number },
        }
    } else {
        PRes::NoParse { at: p, exp: Expected::Expression }
    }
}

/// The six operator forms, tried in order behind an opening parenthesis.
pub open spec fn spec_app(s: Seq<u8>, q: int) -> PRes
    decreases s.len() - q, 1int,
        when 0 <= q <= s.len()
{
    let r1 = spec_bin(s, q, Op::Add);
    if r1 is Parsed {
        r1
    } else {
        let r2 = spec_bin(s, q, Op::Sub);
        if r2 is Parsed {
            r2
        } else {
            let r3 = spec_bin(s, q, Op::Mul);
            if r3 is Parsed {
                r3
            } else {
                let r4 = spec_bin(s, q, Op::Div);
                if r4 is Parsed {
                    r4
                } else {
                    let r5 = spec_var(s, q, Op::Max);
                    if r5 is Parsed {
                        r5
                    } else {
                        let r6 = spec_var(s, q, Op::Min);
                        if r6 is Parsed {
                            r6
                        } else {
                            worse(r1, worse(r2, worse(r3, worse(r4, worse(r5, r6)))))
                        }
                    }
                }
            }
        }
    }
}

/// A two-argument application at `q`: the keyword of `op`, then exactly
/// two expressions.
pub open spec fn spec_bin(s: Seq<u8>, q: int, op: Op) -> PRes
    decreases s.len() - q, 0int,
        when 0 <= q <= s.len()
{
    if kw_matches(s, q, op) {
        match spec_expr(s, q + 3) {
            PRes::Parsed { ast: a1, end: e1 } => if q < e1 <= s.len() {
                match spec_expr(s, e1) {
                    PRes::Parsed { ast: a2, end: e2 } => PRes::Parsed {
                        ast: Ast::App { op, args: seq![a1, a2] },
                        end: e2,
                    },
                    f => f,
                }
            } else {
                PRes::NoParse { at: e1, exp: Expected::Expression }
            },
            f => f,
        }
    } else {
        PRes::NoParse { at: q, exp: Expected::Operator }
    }
}

/// A variadic application at `q`: the keyword of `op`, then one or more
/// expressions, consumed until no further expression matches.
pub open spec fn spec_var(s: Seq<u8>, q: int, op: Op) -> PRes
    decreases s.len() - q, 0int,
        when 0 <= q <= s.len()
{
    if kw_matches(s, q, op) {
        match spec_expr(s, q + 3) {
            PRes::Parsed { ast: a1, end: e1 } => if q < e1 <= s.len() {
                let (rest, fin) = spec_args(s, e1);
                PRes::Parsed { ast: Ast::App { op, args: seq![a1] + rest }, end: fin }
            } else {
                PRes::NoParse { at: e1, exp: Expected::Expression }
            },
            f => f,
        }
    } else {
        PRes::NoParse { at: q, exp: Expected::Operator }
    }
}

/// Zero or more further expressions from `t`, consumed until one fails,
/// with the offset just past the last.
pub open spec fn spec_args(s: Seq<u8>, t: int) -> (Seq<Ast>, int)
    decreases s.len() - t, 2int,
        when 0 <= t <= s.len()
{
    match spec_expr(s, t) {
        PRes::Parsed { ast, end } => if t < end <= s.len() {
            let (rest, fin) = spec_args(s, end);
            (seq![ast] + rest, fin)
        } else {
            (seq![ast], end)
        },
        PRes::NoParse { .. } => (Seq::empty(), t),
    }
}

/// A whole input: one expression covering everything; anything that trails
/// it is an error at its own offset.
pub open spec fn spec_parse(s: Seq<u8>) -> PRes {
    match spec_expr(s, 0) {
        PRes::Parsed { ast, end } => if end == s.len() {
            PRes::Parsed { ast, end }
        } else {
            PRes::NoParse { at: end, exp: Expected::EndOfInput }
        },
        f => f,
    }
}

/// A well-formed tree: binary operators hold exactly two arguments,
/// variadic ones at least one, and every literal in it is in its
/// entirety one valid number literal — so standard floating-point
/// conversion of any literal an evaluator meets cannot fail.
pub open spec fn wf_ast(a: Ast) -> bool
    decreases a,
{
    match a {
        Ast::Num { lit } => is_number_lit(lit),
        Ast::Dice { lit } => is_number_lit(lit),
        Ast::App { op, args } => {
            &&& ((op == Op::Add || op == Op::Sub || op == Op::Mul || op == Op::Div) ==> args.len()
                == 2)
            &&& ((op == Op::Max || op == Op::Min) ==> args.len() >= 1)
            &&& wf_args(args)
        },
    }
}

/// Every tree of the sequence is well formed.
pub open spec fn wf_args(args: Seq<Ast>) -> bool
    decreases args,
{
    if args.len() == 0 {
        true
    } else {
        wf_ast(args[0]) && wf_args(args.drop_first())
    }
}

/// `wf_args` of a sequence with one tree in front.
proof fn lemma_wf_args_cons(a: Ast, rest: Seq<Ast>)
    ensures
        wf_args(seq![a] + rest) == (wf_ast(a) && wf_args(rest)),
{
    assert((seq![a] + rest).drop_first() =~= rest);
    assert((seq![a] + rest)[0] == a);
}

/// What `spec_expr` recognizes is well formed and lies within the input,
/// past its starting offset.
proof fn lemma_expr_wf(s: Seq<u8>, pos: int)
    requires
        0 <= pos <= s.len(),
    ensures
        (match spec_expr(s, pos) {
            PRes::Parsed { ast, end } => wf_ast(ast) && pos < end <= s.len(),
            PRes::NoParse { .. } => true,
        }),
    decreases s.len() - pos, 1int,
{
    let p = skip_ws(s, pos);
    lemma_skip_ws_bounds(s, pos);
    match spec_number(s, p) {
        Some(end) => {
            lemma_number_span(s, p, end);
            lemma_skip_ws_bounds(s, end);
        },
        None => {
            lemma_paren_wf(s, p);
            lemma_dice_wf(s, p);
        },
    }
}

/// What `spec_paren` recognizes is well formed and advances.
proof fn lemma_paren_wf(s: Seq<u8>, p: int)
    requires
        0 <= p <= s.len(),
    ensures
        (match spec_paren(s, p) {
            PRes::Parsed { ast, end } => wf_ast(ast) && p < end <= s.len(),
            PRes::NoParse { .. } => true,
        }),
    decreases s.len() - p, 0int,
{
    if p < s.len() && s[p] == 40 {
        let q0 = skip_ws(s, p + 1);
        lemma_skip_ws_bounds(s, p + 1);
        lemma_app_wf(s, q0);
        match spec_app(s, q0) {
            PRes::Parsed { ast, end } => {
                if end < s.len() && s[end] == 41 {
                    lemma_skip_ws_bounds(s, end + 1);
                }
            },
            PRes::NoParse { .. } => {},
        }
    }
}

/// What `spec_dice` recognizes is well formed and advances.
proof fn lemma_dice_wf(s: Seq<u8>, p: int)
    requires
        0 <= p <= s.len(),
    ensures
        (match spec_dice(s, p) {
            PRes::Parsed { ast, end } => wf_ast(ast) && p < end <= s.len(),
            PRes::NoParse { .. } => true,
        }),
{
    if p < s.len() && s[p] == 100 {
        match spec_number(s, p + 1) {
            Some(end) => {
                lemma_number_span(s, p + 1, end);
                lemma_skip_ws_bounds(s, end);
            },
            None => {},
        }
    }
}

/// What `spec_app` recognizes is well formed and advances.
proof fn lemma_app_wf(s: Seq<u8>, q: int)
    requires
        0 <= q <= s.len(),
    ensures
        (match spec_app(s, q) {
            PRes::Parsed { ast, end } => wf_ast(ast) && q < end <= s.len(),
            PRes::NoParse { .. } => true,
        }),
    decreases s.len() - q, 1int,
{
    lemma_bin_wf(s, q, Op::Add);
    lemma_bin_wf(s, q, Op::Sub);
    lemma_bin_wf(s, q, Op::Mul);
    lemma_bin_wf(s, q, Op::Div);
    lemma_var_wf(s, q, Op::Max);
    lemma_var_wf(s, q, Op::Min);
}

/// What `spec_bin` recognizes is well formed and advances.
proof fn lemma_bin_wf(s: Seq<u8>, q: int, op: Op)
    requires
        0 <= q <= s.len(),
    ensures
        (match spec_bin(s, q, op) {
            PRes::Parsed { ast, end } => wf_ast(ast) && q < end <= s.len(),
            PRes::NoParse { .. } => true,
        }),
    decreases s.len() - q, 0int,
{
    if kw_matches(s, q, op) {
        lemma_expr_wf(s, q + 3);
        match spec_expr(s, q + 3) {
            PRes::Parsed { ast: a1, end: e1 } => {
                lemma_expr_wf(s, e1);
                match spec_expr(s, e1) {
                    PRes::Parsed { ast: a2, end: e2 } => {
                        lemma_wf_args_cons(a2, Seq::empty());
                        lemma_wf_args_cons(a1, seq![a2]);
                        assert(seq![a2] + Seq::<Ast>::empty() =~= seq![a2]);
                        assert(seq![a1] + seq![a2] =~= seq![a1, a2]);
                    },
                    PRes::NoParse { .. } => {},
                }
            },
            PRes::NoParse { .. } => {},
        }
    }
}

/// What `spec_var` recognizes is well formed and advances.
proof fn lemma_var_wf(s: Seq<u8>, q: int, op: Op)
    requires
        0 <= q <= s.len(),
        op == Op::Max || op == Op::Min,
    ensures
        (match spec_var(s, q, op) {
            PRes::Parsed { ast, end } => wf_ast(ast) && q < end <= s.len(),
            PRes::NoParse { .. } => true,
        }),
    decreases s.len() - q, 0int,
{
    if kw_matches(s, q, op) {
        lemma_expr_wf(s, q + 3);
        match spec_expr(s, q + 3) {
            PRes::Parsed { ast: a1, end: e1 } => {
                lemma_args_wf(s, e1);
                let (rest, _) = spec_args(s, e1);
                lemma_wf_args_cons(a1, rest);
            },
            PRes::NoParse { .. } => {},
        }
    }
}

/// What `spec_args` collects is well formed and does not move left.
proof fn lemma_args_wf(s: Seq<u8>, t: int)
    requires
        0 <= t <= s.len(),
    ensures
        wf_args(spec_args(s, t).0),
        t <= spec_args(s, t).1 <= s.len(),
    decreases s.len() - t, 2int,
{
    lemma_expr_wf(s, t);
    match spec_expr(s, t) {
        PRes::Parsed { ast, end } => {
            lemma_args_wf(s, end);
            let (rest, _) = spec_args(s, end);
            lemma_wf_args_cons(ast, rest);
        },
        PRes::NoParse { .. } => {},
    }
}

/// Every tree a whole-input parse hands out is well formed: operator
/// arities are right and every literal converts.
pub proof fn lemma_parse_wf(s: Seq<u8>)
    ensures
        (match spec_parse(s) {
            PRes::Parsed { ast, .. } => wf_ast(ast),
            PRes::NoParse { .. } => true,
        }),
{
    lemma_expr_wf(s, 0);
}

} // verus!

//! The executable recursive-descent parser. Each function returns exactly
//! what its specification-level counterpart in `grammar` computes, so the
//! whole parse — tree, end offset, or failure offset and expectation — is
//! pinned down by `spec_parse`.

use vstd::prelude::*;

use crate::ast::{lemma_views_of, views_of, Ast, Expected, Expr, Op, SyntaxError};
use crate::grammar::{
    frac_end, exp_end, is_number_lit, kw_matches, kw0, kw1, kw2, lemma_parse_wf, scan_digits,
    skip_ws, spec_app, spec_args, spec_bin, spec_dice, spec_expr, spec_number, spec_paren,
    spec_parse, spec_var, wf_ast, worse, PRes,
};

verus! {

/// The outcome an executable parsing step stands for.
pub open spec fn pres_of(r: Result<(Expr, usize), SyntaxError>) -> PRes {
    match r {
        Ok((e, end)) => PRes::Parsed { ast: e@, end: end as int },
        Err(f) => PRes::NoParse { at: f.offset as int, exp: f.expected },
    }
}

/// First offset at or after `pos` holding no whitespace.
fn ws_end(s: &[u8], pos: usize) -> (r: usize)
    requires
        pos <= s@.len(),
    ensures
        r as int == skip_ws(s@, pos as int),
        pos <= r <= s@.len(),
{
    let mut i = pos;
    while i < s.len() && (s[i] == 32 || s[i] == 9 || s[i] == 13 || s[i] == 10)
        invariant
            pos <= i <= s@.len(),
            skip_ws(s@, pos as int) == skip_ws(s@, i as int),
        decreases s@.len() - i,
    {
        i = i + 1;
    }
    i
}

/// First offset at or after `pos` holding no digit.
fn digits_end(s: &[u8], pos: usize) -> (r: usize)
    requires
        pos <= s@.len(),
    ensures
        r as int == scan_digits(s@, pos as int),
        pos <= r <= s@.len(),
{
    let mut i = pos;
    while i < s.len() && 48 <= s[i] && s[i] <= 57
        invariant
            pos <= i <= s@.len(),
            scan_digits(s@, pos as int) == scan_digits(s@, i as int),
        decreases s@.len() - i,
    {
        i = i + 1;
    }
    i
}

/// End of the optional fraction part starting at `e`.
fn frac_after(s: &[u8], e: usize) -> (r: usize)
    requires
        e <= s@.len(),
    ensures
        r as int == frac_end(s@, e as int),
        e <= r <= s@.len(),
{
    let n = s.len();
    if e < n && s[e] == 46 && e + 1 < n && 48 <= s[e + 1] && s[e + 1] <= 57 {
        digits_end(s, e + 1)
    } else {
        e
    }
}

/// End of the optional exponent part starting at `f`.
fn exp_after(s: &[u8], f: usize) -> (r: usize)
    requires
        f <= s@.len(),
    ensures
        r as int == exp_end(s@, f as int),
        f <= r <= s@.len(),
{
    let n = s.len();
    if f < n && (s[f] == 101 || s[f] == 69) {
        let g = if f + 1 < n && (s[f + 1] == 43 || s[f + 1] == 45) {
            f + 2
        } else {
            f + 1
        };
        if g < n && 48 <= s[g] && s[g] <= 57 {
            digits_end(s, g)
        } else {
            f
        }
    } else {
        f
    }
}

/// End of a maximal number literal at `pos`, if one starts there.
fn number_end(s: &[u8], pos: usize) -> (r: Option<usize>)
    requires
        pos <= s@.len(),
    ensures
        match r {
            Some(end) => spec_number(s@, pos as int) == Some(end as int) && pos < end <= s@.len(),
            None => spec_number(s@, pos as int) is None,
        },
{
    let n = s.len();
    let p = if pos < n && s[pos] == 45 {
        pos + 1
    } else {
        pos
    };
    if p < n && s[p] == 48 {
        Some(exp_after(s, frac_after(s, p + 1)))
    } else if p < n && 49 <= s[p] && s[p] <= 57 {
        Some(exp_after(s, frac_after(s, digits_end(s, p + 1))))
    } else {
        None
    }
}

/// The bytes of `s` from `i` to `j`.
fn copy_range(s: &[u8], i: usize, j: usize) -> (v: Vec<u8>)
    requires
        i <= j <= s@.len(),
    ensures
        v@ == s@.subrange(i as int, j as int),
{
    let mut v: Vec<u8> = Vec::new();
    let mut k = i;
    proof {
        assert(v@ =~= s@.subrange(i as int, i as int));
    }
    while k < j
        invariant
            i <= k <= j <= s@.len(),
            v@ == s@.subrange(i as int, k as int),
        decreases j - k,
    {
        v.push(s[k]);
        k = k + 1;
        proof {
            assert(v@ =~= s@.subrange(i as int, k as int));
        }
    }
    v
}

/// Whether the three keyword bytes of `op` stand at `q`.
fn kw_at(s: &[u8], q: usize, op: Op) -> (r: bool)
    requires
        q <= s@.len(),
    ensures
        r == kw_matches(s@, q as int, op),
{
    if s.len() - q >= 3 {
        let (b0, b1, b2): (u8, u8, u8) = match op {
            Op::Add => (97, 100, 100),
            Op::Sub => (115, 117, 98),
            Op::Mul => (109, 117, 108),
            Op::Div => (100, 105, 118),
            Op::Max => (109, 97, 120),
            Op::Min => (109, 105, 110),
        };
        proof {
            assert(b0 == kw0(op) && b1 == kw1(op) && b2 == kw2(op));
        }
        s[q] == b0 && s[q + 1] == b1 && s[q + 2] == b2
    } else {
        false
    }
}

/// Of two failures, the one further to the right; the first on a tie.
fn worse_err(a: SyntaxError, b: SyntaxError) -> (r: SyntaxError)
    ensures
        pres_of(Err(r)) == worse(pres_of(Err(a)), pres_of(Err(b))),
{
    if b.offset > a.offset {
        b
    } else {
        a
    }
}

/// One expression at `pos`: whitespace, then the first matching
/// alternative among number, parenthesized application and dice roll,
/// then whitespace.
fn parse_expr(s: &[u8], pos: usize) -> (r: Result<(Expr, usize), SyntaxError>)
    requires
        pos <= s@.len(),
    ensures
        pres_of(r) == spec_expr(s@, pos as int),
        (match r {
            Ok((_, end)) => pos < end <= s@.len(),
            Err(_) => true,
        }),
    decreases s@.len() - pos, 1int,
{
    let p = ws_end(s, pos);
    match number_end(s, p) {
        Some(end) => {
            let lit = copy_range(s, p, end);
            let fin = ws_end(s, end);
            Ok((Expr::Num { lit }, fin))
        },
        None => {
            match parse_paren(s, p) {
                Ok(ok) => Ok(ok),
                Err(fp) => {
                    match parse_dice(s, p) {
                        Ok(ok) => Ok(ok),
                        Err(fd) => {
                            let first = SyntaxError { offset: p, expected: Expected::Expression };
                            Err(worse_err(worse_err(first, fp), fd))
                        },
                    }
                },
            }
        },
    }
}

/// A parenthesized application at `p`: `(`, an operator application, `)`.
fn parse_paren(s: &[u8], p: usize) -> (r: Result<(Expr, usize), SyntaxError>)
    requires
        p <= s@.len(),
    ensures
        pres_of(r) == spec_paren(s@, p as int),
        (match r {
            Ok((_, end)) => p < end <= s@.len(),
            Err(_) => true,
        }),
    decreases s@.len() - p, 0int,
{
    if p < s.len() && s[p] == 40 {
        let q0 = ws_end(s, p + 1);
        match parse_app(s, q0) {
            Ok((ast, end)) => {
                if end < s.len() && s[end] == 41 {
                    let fin = ws_end(s, end + 1);
                    Ok((ast, fin))
                } else {
                    Err(SyntaxError { offset: end, expected: Expected::CloseParen })
                }
            },
            Err(f) => Err(f),
        }
    } else {
        Err(SyntaxError { offset: p, expected: Expected::Expression })
    }
}

/// A dice roll at `p`: `d` immediately followed by a number literal.
fn parse_dice(s: &[u8], p: usize) -> (r: Result<(Expr, usize), SyntaxError>)
    requires
        p <= s@.len(),
    ensures
        pres_of(r) == spec_dice(s@, p as int),
        (match r {
            Ok((_, end)) => p < end <= s@.len(),
            Err(_) => true,
        }),
{
    if p < s.len() && s[p] == 100 {
        match number_end(s, p + 1) {
            Some(end) => {
                let lit = copy_range(s, p + 1, end);
                let fin = ws_end(s, end);
                Ok((Expr::Dice { lit }, fin))
            },
            None => Err(SyntaxError { offset: p + 1, expected: Expected::Number }),
        }
    } else {
        Err(SyntaxError { offset: p, expected: Expected::Expression })
    }
}

/// The six operator forms, tried in order.
fn parse_app(s: &[u8], q: usize) -> (r: Result<(Expr, usize), SyntaxError>)
    requires
        q <= s@.len(),
    ensures
        pres_of(r) == spec_app(s@, q as int),
        (match r {
            Ok((_, end)) => q < end <= s@.len(),
            Err(_) => true,
        }),
    decreases s@.len() - q, 1int,
{
    match parse_bin(s, q, Op::Add) {
        Ok(ok) => Ok(ok),
        Err(f1) => match parse_bin(s, q, Op::Sub) {
            Ok(ok) => Ok(ok),
            Err(f2) => match parse_bin(s, q, Op::Mul) {
                Ok(ok) => Ok(ok),
                Err(f3) => match parse_bin(s, q, Op::Div) {
                    Ok(ok) => Ok(ok),
                    Err(f4) => match parse_var(s, q, Op::Max) {
                        Ok(ok) => Ok(ok),
                        Err(f5) => match parse_var(s, q, Op::Min) {
                            Ok(ok) => Ok(ok),
                            Err(f6) => Err(worse_err(
                                f1,
                                worse_err(f2, worse_err(f3, worse_err(f4, worse_err(f5, f6)))),
                            )),
                        },
                    },
                },
            },
        },
    }
}

/// A two-argument application at `q`: `op`'s keyword, then two expressions.
fn parse_bin(s: &[u8], q: usize, op: Op) -> (r: Result<(Expr, usize), SyntaxError>)
    requires
        q <= s@.len(),
    ensures
        pres_of(r) == spec_bin(s@, q as int, op),
        (match r {
            Ok((_, end)) => q < end <= s@.len(),
            Err(_) => true,
        }),
    decreases s@.len() - q, 0int,
{
    if kw_at(s, q, op) {
        let n = s.len();
        proof {
            assert(q + 3 <= n);
        }
        match parse_expr(s, q + 3) {
            Ok((a1, e1)) => match parse_expr(s, e1) {
                Ok((a2, e2)) => {
                    let ghost v1 = a1@;
                    let ghost v2 = a2@;
                    let mut args: Vec<Expr> = Vec::new();
                    args.push(a1);
                    args.push(a2);
                    proof {
                        lemma_views_of(args@);
                        assert(views_of(args@) =~= seq![v1, v2]);
                    }
                    Ok((Expr::App { op, args }, e2))
                },
                Err(f) => Err(f),
            },
            Err(f) => Err(f),
        }
    } else {
        Err(SyntaxError { offset: q, expected: Expected::Operator })
    }
}

/// A variadic application at `q`: `op`'s keyword, then one or more
/// expressions, as many as match.
fn parse_var(s: &[u8], q: usize, op: Op) -> (r: Result<(Expr, usize), SyntaxError>)
    requires
        q <= s@.len(),
    ensures
        pres_of(r) == spec_var(s@, q as int, op),
        (match r {
            Ok((_, end)) => q < end <= s@.len(),
            Err(_) => true,
        }),
    decreases s@.len() - q, 0int,
{
    if kw_at(s, q, op) {
        let n = s.len();
        proof {
            assert(q + 3 <= n);
        }
        match parse_expr(s, q + 3) {
            Ok((a1, e1)) => {
                let ghost v1 = a1@;
                let mut pair = parse_args(s, e1);
                let ghost grest = pair.0@;
                let mut args: Vec<Expr> = Vec::new();
                args.push(a1);
                args.append(&mut pair.0);
                proof {
                    lemma_views_of(args@);
                    lemma_views_of(grest);
                    assert(views_of(args@) =~= seq![v1] + views_of(grest));
                }
                Ok((Expr::App { op, args }, pair.1))
            },
            Err(f) => Err(f),
        }
    } else {
        Err(SyntaxError { offset: q, expected: Expected::Operator })
    }
}

/// Zero or more further expressions from `t`, as many as match.
fn parse_args(s: &[u8], t: usize) -> (r: (Vec<Expr>, usize))
    requires
        t <= s@.len(),
    ensures
        views_of(r.0@) == spec_args(s@, t as int).0,
        r.1 as int == spec_args(s@, t as int).1,
        t <= r.1 <= s@.len(),
    decreases s@.len() - t, 2int,
{
    match parse_expr(s, t) {
        Ok((a, end)) => {
            let ghost v0 = a@;
            let mut pair = parse_args(s, end);
            let ghost grest = pair.0@;
            let mut args: Vec<Expr> = Vec::new();
            args.push(a);
            args.append(&mut pair.0);
            proof {
                lemma_views_of(args@);
                lemma_views_of(grest);
                assert(views_of(args@) =~= seq![v0] + views_of(grest));
            }
            (args, pair.1)
        },
        Err(_) => {
            let v: Vec<Expr> = Vec::new();
            proof {
                assert(views_of(v@) =~= Seq::<Ast>::empty());
            }
            (v, t)
        },
    }
}

/// Parse a whole input: one expression, with nothing but whitespace around
/// it. On success the result is the tree `spec_parse` assigns to the
/// input, and it is well formed: operator arities are right and every
/// literal in it is a valid number literal. On failure the error holds
/// the furthest offset reached and what was expected there.
pub fn parse(s: &[u8]) -> (r: Result<Expr, SyntaxError>)
    ensures
        (match r {
            Ok(e) => spec_parse(s@) == (PRes::Parsed { ast: e@, end: s@.len() as int })
                && wf_ast(e@),
            Err(f) => spec_parse(s@) == (PRes::NoParse { at: f.offset as int, exp: f.expected }),
        }),
{
    proof {
        lemma_parse_wf(s@);
    }
    match parse_expr(s, 0) {
        Ok((e, end)) => {
            if end == s.len() {
                Ok(e)
            } else {
                Err(SyntaxError { offset: end, expected: Expected::EndOfInput })
            }
        },
        Err(f) => Err(f),
    }
}

/// Parsing is referentially transparent: the outcome is a function of the
/// input bytes alone, so parsing equal inputs yields equal results. This
/// holds of dice expressions as well — only their evaluation draws from a
/// generator, the parse does not.
pub proof fn lemma_parse_deterministic(s: Seq<u8>, t: Seq<u8>)
    requires
        s == t,
    ensures
        spec_parse(s) == spec_parse(t),
{
}

/// Every input that is in its entirety one valid number literal parses,
/// and parses to exactly that literal: the value such an input stands for
/// is the one standard floating-point conversion gives its whole text.
pub proof fn lemma_number_literal_parses(s: Seq<u8>)
    requires
        is_number_lit(s),
    ensures
        spec_parse(s) == (PRes::Parsed { ast: Ast::Num { lit: s }, end: s.len() as int }),
{
    assert(spec_number(s, 0) == Some(s.len() as int));
    assert(s.len() > 0);
    assert(!crate::grammar::is_ws(s[0]));
    assert(skip_ws(s, 0) == 0);
    assert(skip_ws(s, s.len() as int) == s.len() as int);
    assert(s.subrange(0, s.len() as int) =~= s);
}

} // verus!

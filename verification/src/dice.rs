//! The integer core of the dice primitive `d<N>`: drawing one value from
//! the half-open range `[0, n)` once the evaluator has taken the floor of
//! the bound. A bound whose floor is not positive makes the range empty,
//! which is the evaluation error the language defines. The generator is
//! either the process-wide one or an injected draw, so that callers can
//! substitute a deterministic source.

use vstd::prelude::*;

use rand::Rng;

use crate::ast::EvalError;

verus! {

/// Relies on rand::thread_rng and rand::Rng::gen_range over `0..n`
/// (rand 0.8): gen_range returns a uniformly distributed value of the
/// half-open range, and panics when the range is empty, so `n > 0` is
/// required.
#[verifier::external_body]
fn gen_range_u32(n: u32) -> (r: u32)
    requires
        n > 0,
    ensures
        r < n,
{
    rand::thread_rng().gen_range(0..n)
}

/// One dice draw with the process-wide generator: a value in `[0, n)`
/// exactly when the range is not empty, the empty-range error otherwise.
pub fn roll(n: u32) -> (r: Result<u32, EvalError>)
    ensures
        (match r {
            Ok(v) => n > 0 && v < n,
            Err(e) => n == 0 && e == EvalError::EmptyDiceRange,
        }),
{
    if n == 0 {
        Err(EvalError::EmptyDiceRange)
    } else {
        Ok(gen_range_u32(n))
    }
}

/// One dice draw from an injected raw draw: the draw folded into
/// `[0, n)` by remainder exactly when the range is not empty, the
/// empty-range error otherwise. A draw already within the range comes
/// back unchanged; in particular a source fixed to `0` always yields `0`
/// and one fixed to `n - 1` always yields `n - 1`.
pub fn roll_from(n: u32, raw: u32) -> (r: Result<u32, EvalError>)
    ensures
        (match r {
            Ok(v) => n > 0 && v == raw % n && v < n && (raw < n ==> v == raw),
            Err(e) => n == 0 && e == EvalError::EmptyDiceRange,
        }),
{
    if n == 0 {
        Err(EvalError::EmptyDiceRange)
    } else {
        let v = raw % n;
        proof {
            vstd::arithmetic::div_mod::lemma_mod_division_less_than_divisor(raw as int, n as int);
            if raw < n {
                vstd::arithmetic::div_mod::lemma_small_mod(raw as nat, n as nat);
            }
        }
        Ok(v)
    }
}

} // verus!
